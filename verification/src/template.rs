//! The placeholder renderer.
//!
//! A template is a string holding zero or more placeholder markers of the
//! shape `{{name}}`, where `name` is any text without a `}`.  Markers are
//! found scanning left to right, non-overlapping; rendering replaces each
//! marker whose name is bound in the fact mapping by its value and leaves
//! every other character — unresolved markers included — unchanged.

use crate::facts::Facts;
use vstd::prelude::*;

verus! {

/// A placeholder marker occupies `s[i..j)`: it opens with `{{`, closes with
/// `}}`, and its name `s[i+2..j-2]` holds no `}`.  For a given start `i` at
/// most one end `j` qualifies, since `s[j-2]` must be the first `}` at or
/// after `i+2`.
pub open spec fn is_marker_at(s: Seq<char>, i: int, j: int) -> bool {
    &&& 0 <= i
    &&& i + 4 <= j
    &&& j <= s.len()
    &&& s[i] == '{'
    &&& s[i + 1] == '{'
    &&& s[j - 2] == '}'
    &&& s[j - 1] == '}'
    &&& forall|k: int| i + 2 <= k < j - 2 ==> s[k] != '}'
}

/// Some marker starts at position `i`.
pub open spec fn has_marker_at(s: Seq<char>, i: int) -> bool {
    exists|j: int| is_marker_at(s, i, j)
}

/// The end of the marker starting at `i` (meaningful only under
/// `has_marker_at(s, i)`).
pub open spec fn marker_end(s: Seq<char>, i: int) -> int {
    choose|j: int| is_marker_at(s, i, j)
}

/// A marker's end is determined by its start.
pub proof fn lemma_marker_end_unique(s: Seq<char>, i: int, j1: int, j2: int)
    requires
        is_marker_at(s, i, j1),
        is_marker_at(s, i, j2),
    ensures
        j1 == j2,
{
    if j1 < j2 {
        assert(i + 2 <= j1 - 2 < j2 - 2);
        assert(s[j1 - 2] != '}');
        assert(false);
    }
    if j2 < j1 {
        assert(i + 2 <= j2 - 2 < j1 - 2);
        assert(s[j2 - 2] != '}');
        assert(false);
    }
}

/// The markers of `s` at or after position `pos`, scanned left to right,
/// non-overlapping, each as its `(start, end)` pair.
pub open spec fn markers_from(s: Seq<char>, pos: int) -> Seq<(int, int)>
    decreases s.len() - pos
        when 0 <= pos <= s.len()
{
    if pos >= s.len() {
        Seq::empty()
    } else if has_marker_at(s, pos) {
        seq![(pos, marker_end(s, pos))] + markers_from(s, marker_end(s, pos))
    } else {
        markers_from(s, pos + 1)
    }
}

/// The text that the suffix `s[pos..]` renders to under the values `vals`:
/// each marker whose name is bound becomes the bound value, every other
/// character stays.
pub open spec fn rendered(s: Seq<char>, vals: Map<Seq<char>, Seq<char>>, pos: int) -> Seq<char>
    decreases s.len() - pos
        when 0 <= pos <= s.len()
{
    if pos >= s.len() {
        Seq::empty()
    } else if has_marker_at(s, pos) {
        let j = marker_end(s, pos);
        let name = s.subrange(pos + 2, j - 2);
        let piece = if vals.contains_key(name) {
            vals[name]
        } else {
            s.subrange(pos, j)
        };
        piece + rendered(s, vals, j)
    } else {
        seq![s[pos]] + rendered(s, vals, pos + 1)
    }
}

/// A marker-free stretch renders to itself: rendering from `p` is the literal
/// text up to `q` followed by the rendering from `q`.
pub proof fn lemma_rendered_skip(s: Seq<char>, vals: Map<Seq<char>, Seq<char>>, p: int, q: int)
    requires
        0 <= p <= q <= s.len(),
        forall|t: int| p <= t < q ==> !has_marker_at(s, t),
    ensures
        rendered(s, vals, p) == s.subrange(p, q) + rendered(s, vals, q),
    decreases q - p,
{
    if p == q {
        assert(s.subrange(p, q) =~= Seq::empty());
        assert(rendered(s, vals, p) =~= s.subrange(p, q) + rendered(s, vals, q));
    } else {
        lemma_rendered_skip(s, vals, p + 1, q);
        assert(rendered(s, vals, p) == seq![s[p]] + rendered(s, vals, p + 1));
        assert(seq![s[p]] + s.subrange(p + 1, q) =~= s.subrange(p, q));
        assert(rendered(s, vals, p) =~= s.subrange(p, q) + rendered(s, vals, q));
    }
}

/// Where the marker list from `p` is empty, no position at or after `p`
/// starts a marker.
pub proof fn lemma_markers_none(s: Seq<char>, p: int)
    requires
        0 <= p <= s.len(),
        markers_from(s, p) == Seq::<(int, int)>::empty(),
    ensures
        forall|t: int| p <= t < s.len() ==> !has_marker_at(s, t),
    decreases s.len() - p,
{
    if p < s.len() {
        if has_marker_at(s, p) {
            assert(markers_from(s, p).len() > 0);
            assert(false);
        }
        lemma_markers_none(s, p + 1);
    }
}

/// The first marker at or after `p`: it is a marker, nothing before it is
/// one, and the rest of the list is the list from its end.
pub proof fn lemma_markers_head(s: Seq<char>, p: int)
    requires
        0 <= p <= s.len(),
        markers_from(s, p).len() > 0,
    ensures
        ({
            let m = markers_from(s, p)[0];
            &&& p <= m.0
            &&& is_marker_at(s, m.0, m.1)
            &&& forall|t: int| p <= t < m.0 ==> !has_marker_at(s, t)
            &&& markers_from(s, p).drop_first() == markers_from(s, m.1)
        }),
    decreases s.len() - p,
{
    assert(p < s.len());
    if has_marker_at(s, p) {
        let j = marker_end(s, p);
        assert(is_marker_at(s, p, j));
        assert(markers_from(s, p) == seq![(p, j)] + markers_from(s, j));
        assert(markers_from(s, p)[0] == (p, j));
        assert(markers_from(s, p).drop_first() =~= markers_from(s, j));
    } else {
        lemma_markers_head(s, p + 1);
        assert(markers_from(s, p) == markers_from(s, p + 1));
    }
}

/// Law: a template in which no marker occurs renders to itself, whatever the
/// values are.
pub proof fn lemma_render_unmatched(s: Seq<char>, vals: Map<Seq<char>, Seq<char>>)
    requires
        markers_from(s, 0) == Seq::<(int, int)>::empty(),
    ensures
        rendered(s, vals, 0) == s,
{
    lemma_markers_none(s, 0);
    lemma_rendered_skip(s, vals, 0, s.len() as int);
    assert(s.subrange(0, s.len() as int) =~= s);
    assert(rendered(s, vals, s.len() as int) =~= Seq::<char>::empty());
    assert(rendered(s, vals, 0) =~= s);
}

/// The `(start, end)` pairs of a match vector, as mathematical integers.
pub open spec fn match_views(ms: Seq<(usize, usize)>) -> Seq<(int, int)> {
    ms.map_values(|m: (usize, usize)| (m.0 as int, m.1 as int))
}

/// A template string together with the positions of its placeholder markers,
/// found once at construction so the template can be rendered many times.
pub struct Template {
    src: String,
    matches: Vec<(usize, usize)>,
}

impl View for Template {
    type V = Seq<char>;

    closed spec fn view(&self) -> Seq<char> {
        self.src@
    }
}

/// Finds the end of the marker starting at `cur`, or decides that no marker
/// starts there.
fn find_marker_end(s: &str, n: usize, cur: usize) -> (r: Option<usize>)
    requires
        s@.len() == n,
        cur < n,
    ensures
        match r {
            Some(e) => is_marker_at(s@, cur as int, e as int) && cur < e <= n,
            None => !has_marker_at(s@, cur as int),
        },
{
    if !(cur + 1 < n && s.get_char(cur) == '{' && s.get_char(cur + 1) == '{') {
        proof {
            assert(!has_marker_at(s@, cur as int)) by {
                if has_marker_at(s@, cur as int) {
                    let jj = choose|jj: int| is_marker_at(s@, cur as int, jj);
                    assert(s@[cur as int] == '{');
                    assert(s@[cur as int + 1] == '{');
                    assert(cur + 4 <= jj <= n);
                    assert(false);
                }
            }
        }
        return None;
    }
    let mut j: usize = cur + 2;
    while j < n && s.get_char(j) != '}'
        invariant
            s@.len() == n,
            cur + 2 <= j <= n,
            forall|t: int| cur + 2 <= t < j ==> s@[t] != '}',
        decreases n - j,
    {
        j = j + 1;
    }
    if j < n && j + 1 < n && s.get_char(j + 1) == '}' {
        proof {
            assert(is_marker_at(s@, cur as int, j + 2));
        }
        Some(j + 2)
    } else {
        proof {
            assert(!has_marker_at(s@, cur as int)) by {
                if has_marker_at(s@, cur as int) {
                    let jj = choose|jj: int| is_marker_at(s@, cur as int, jj);
                    assert(cur + 2 <= jj - 2);
                    assert(s@[jj - 2] == '}');
                    if j == n {
                        assert(jj - 2 < j);
                        assert(s@[jj - 2] != '}');
                    } else {
                        assert(s@[j as int] == '}');
                        if jj - 2 < j {
                            assert(s@[jj - 2] != '}');
                        }
                        if jj - 2 > j {
                            assert(cur + 2 <= j < jj - 2);
                            assert(s@[j as int] != '}');
                        }
                        assert(jj - 2 == j);
                        assert(s@[jj - 1] == '}');
                        assert(jj <= n);
                    }
                    assert(false);
                }
            }
        }
        None
    }
}

impl Template {
    /// The match vector holds exactly the markers of the template text.
    pub closed spec fn wf(self) -> bool {
        match_views(self.matches@) == markers_from(self.src@, 0)
    }

    /// Parses a template: records the text and the position of every
    /// placeholder marker in it.
    pub fn new(template: &str) -> (t: Template)
        ensures
            t@ == template@,
            t.wf(),
    {
        let n = template.unicode_len();
        let mut ms: Vec<(usize, usize)> = Vec::new();
        let mut cur: usize = 0;
        while cur < n
            invariant
                template@.len() == n,
                cur <= n,
                markers_from(template@, 0) == match_views(ms@) + markers_from(
                    template@,
                    cur as int,
                ),
            decreases n - cur,
        {
            let found = find_marker_end(template, n, cur);
            match found {
                Some(e) => {
                    proof {
                        assert(has_marker_at(template@, cur as int));
                        lemma_marker_end_unique(
                            template@,
                            cur as int,
                            marker_end(template@, cur as int),
                            e as int,
                        );
                        assert(markers_from(template@, cur as int) == seq![
                            (cur as int, e as int),
                        ] + markers_from(template@, e as int));
                        assert(match_views(ms@.push((cur, e))) =~= match_views(ms@) + seq![
                            (cur as int, e as int),
                        ]);
                        assert(match_views(ms@) + (seq![(cur as int, e as int)] + markers_from(
                            template@,
                            e as int,
                        )) =~= (match_views(ms@) + seq![(cur as int, e as int)]) + markers_from(
                            template@,
                            e as int,
                        ));
                    }
                    ms.push((cur, e));
                    cur = e;
                },
                None => {
                    proof {
                        assert(markers_from(template@, cur as int) == markers_from(
                            template@,
                            cur as int + 1,
                        ));
                    }
                    cur = cur + 1;
                },
            }
        }
        Template { src: template.to_owned(), matches: ms }
    }

    /// Renders the template: every marker whose name `vals` binds is replaced
    /// by the bound value; all other text, unresolved markers included, is
    /// passed through unchanged.
    pub fn render(&self, vals: &Facts) -> (r: String)
        requires
            self.wf(),
        ensures
            r@ == rendered(self@, vals@, 0),
    {
        let n = self.src.as_str().unicode_len();
        if self.matches.len() == 0 {
            proof {
                assert(match_views(self.matches@) =~= Seq::<(int, int)>::empty());
                lemma_render_unmatched(self@, vals@);
            }
            return self.src.clone();
        }
        let mut out = String::new();
        let mut prev_end: usize = 0;
        let mut k: usize = 0;
        proof {
            assert(match_views(self.matches@).skip(0) =~= match_views(self.matches@));
        }
        while k < self.matches.len()
            invariant
                self.wf(),
                n == self@.len(),
                k <= self.matches.len(),
                prev_end <= n,
                markers_from(self@, prev_end as int) == match_views(self.matches@).skip(k as int),
                rendered(self@, vals@, 0) == out@ + rendered(self@, vals@, prev_end as int),
            decreases self.matches.len() - k,
        {
            let m = self.matches[k];
            let a = m.0;
            let b = m.1;
            proof {
                assert(markers_from(self@, prev_end as int).len() > 0);
                lemma_markers_head(self@, prev_end as int);
                assert(markers_from(self@, prev_end as int)[0] == (a as int, b as int));
                lemma_rendered_skip(self@, vals@, prev_end as int, a as int);
            }
            let chunk = self.src.as_str().substring_char(prev_end, a);
            out.append(chunk);
            proof {
                assert(has_marker_at(self@, a as int));
                lemma_marker_end_unique(
                    self@,
                    a as int,
                    marker_end(self@, a as int),
                    b as int,
                );
            }
            let name_str = self.src.as_str().substring_char(a + 2, b - 2);
            let name = String::from_str(name_str);
            match vals.get(&name) {
                Some(v) => {
                    let piece = v.clone();
                    out.append(piece.as_str());
                },
                None => {
                    let lit = self.src.as_str().substring_char(a, b);
                    out.append(lit);
                },
            }
            proof {
                assert(markers_from(self@, prev_end as int).drop_first() =~= match_views(
                    self.matches@,
                ).skip(k as int + 1));
            }
            prev_end = b;
            k = k + 1;
        }
        proof {
            assert(match_views(self.matches@).skip(self.matches@.len() as int) =~= Seq::<(
                int,
                int,
            )>::empty());
            lemma_markers_none(self@, prev_end as int);
            lemma_rendered_skip(self@, vals@, prev_end as int, n as int);
            assert(rendered(self@, vals@, n as int) =~= Seq::<char>::empty());
        }
        let tail = self.src.as_str().substring_char(prev_end, n);
        out.append(tail);
        out
    }
}

} // verus!
