//! Presentation-side data: the state shown by the terminal screens, the
//! spinner tick themes, and the sorted pattern-hit listing. Rendering itself
//! happens outside the library; these types carry the text it shows.

use vstd::prelude::*;

use vstd::multiset::group_multiset_axioms;
use vstd::multiset::Multiset;
use vstd::seq_lib::group_to_multiset_ensures;

use crate::text::chars_of;

verus! {

broadcast use group_multiset_axioms, group_to_multiset_ensures;

/// The state behind the terminal screens.
pub struct App {
    pub username: String,
    pub sidebar_title: String,
    pub content_title: String,
}

impl App {
    pub fn new() -> (a: App)
        ensures
            a.username@ == "Test"@,
            a.sidebar_title@ == "sidebar_title content from app.rs goes here"@,
            a.content_title@ == "content_title content from app.rs goes here"@,
    {
        App {
            username: String::from_str("Test"),
            sidebar_title: String::from_str("sidebar_title content from app.rs goes here"),
            content_title: String::from_str("content_title content from app.rs goes here"),
        }
    }
}

/// The header line: who runs the cleaner.
pub struct HeaderWidget {
    pub username: String,
}

impl HeaderWidget {
    pub fn new(username: String) -> (w: HeaderWidget)
        ensures
            w.username == username,
    {
        HeaderWidget { username }
    }
}

/// The sidebar text.
pub struct SidebarWidget {
    pub content: String,
}

impl SidebarWidget {
    pub fn new(content: String) -> (w: SidebarWidget)
        ensures
            w.content == content,
    {
        SidebarWidget { content }
    }
}

/// The main content text.
pub struct ContentWidget {
    pub content: String,
}

impl ContentWidget {
    pub fn new(content: String) -> (w: ContentWidget)
        ensures
            w.content == content,
    {
        ContentWidget { content }
    }
}

/// The list of paths shown as a tree.
pub struct PathTreeWidget {
    pub paths: Vec<String>,
}

impl PathTreeWidget {
    pub fn new(paths: Vec<String>) -> (w: PathTreeWidget)
        ensures
            w.paths == paths,
    {
        PathTreeWidget { paths }
    }
}

/// Which spinner animation a long-running phase shows.
pub enum SpinnerTheme {
    FileWalker,
    SearchScan,
    PatternMatch,
}

/// The tick frames of one spinner theme: twelve frames, three per symbol,
/// opening with the theme's lead symbol.
pub fn get_ticks(theme: SpinnerTheme) -> (r: Vec<&'static str>)
    ensures
        r@.len() == 12,
        theme is FileWalker ==> r@[0]@ == "📁"@,
        theme is SearchScan ==> r@[0]@ == "🔍"@,
        theme is PatternMatch ==> r@[0]@ == "🎯"@,
{
    let mut v: Vec<&'static str> = Vec::new();
    match theme {
        SpinnerTheme::FileWalker => {
            v.push("📁");
            v.push("📁");
            v.push("📁");
            v.push("📂");
            v.push("📂");
            v.push("📂");
            v.push("📁");
            v.push("📁");
            v.push("📁");
            v.push("📂");
            v.push("📂");
            v.push("📂");
        },
        SpinnerTheme::SearchScan => {
            v.push("🔍");
            v.push("🔍");
            v.push("🔍");
            v.push("🔎");
            v.push("🔎");
            v.push("🔎");
            v.push("📡");
            v.push("📡");
            v.push("📡");
            v.push("📶");
            v.push("📶");
            v.push("📶");
        },
        SpinnerTheme::PatternMatch => {
            v.push("🎯");
            v.push("🎯");
            v.push("🎯");
            v.push("🕵");
            v.push("🕵");
            v.push("🕵");
            v.push("🔎");
            v.push("🔎");
            v.push("🔎");
            v.push("💡");
            v.push("💡");
            v.push("💡");
        },
    }
    v
}

/// Lexicographic order on text, by character value.
pub open spec fn lex_le(a: Seq<char>, b: Seq<char>) -> bool
    decreases a.len(),
{
    if a.len() == 0 {
        true
    } else if b.len() == 0 {
        false
    } else if a[0] != b[0] {
        a[0] < b[0]
    } else {
        lex_le(a.drop_first(), b.drop_first())
    }
}

pub proof fn lemma_lex_refl(a: Seq<char>)
    ensures
        lex_le(a, a),
    decreases a.len(),
{
    if a.len() > 0 {
        lemma_lex_refl(a.drop_first());
    }
}

pub proof fn lemma_lex_total(a: Seq<char>, b: Seq<char>)
    ensures
        lex_le(a, b) || lex_le(b, a),
    decreases a.len(),
{
    if a.len() > 0 && b.len() > 0 && a[0] == b[0] {
        lemma_lex_total(a.drop_first(), b.drop_first());
    }
}

pub proof fn lemma_lex_trans(a: Seq<char>, b: Seq<char>, c: Seq<char>)
    requires
        lex_le(a, b),
        lex_le(b, c),
    ensures
        lex_le(a, c),
    decreases a.len(),
{
    if a.len() > 0 && b.len() > 0 && c.len() > 0 && a[0] == b[0] && b[0] == c[0] {
        lemma_lex_trans(a.drop_first(), b.drop_first(), c.drop_first());
    }
}

/// Dropping an equal prefix does not change the order.
proof fn lemma_lex_skip(a: Seq<char>, b: Seq<char>, i: int)
    requires
        0 <= i <= a.len(),
        i <= b.len(),
        a.subrange(0, i) == b.subrange(0, i),
    ensures
        lex_le(a, b) == lex_le(a.skip(i), b.skip(i)),
    decreases i,
{
    if i > 0 {
        assert(a[0] == b[0]) by {
            assert(a.subrange(0, i)[0] == a[0]);
            assert(b.subrange(0, i)[0] == b[0]);
        }
        assert(a.len() > 0 && b.len() > 0);
        assert(a.drop_first().subrange(0, i - 1) =~= b.drop_first().subrange(0, i - 1)) by {
            assert forall|k: int| 0 <= k < i - 1 implies #[trigger] a.drop_first().subrange(
                0,
                i - 1,
            )[k] == b.drop_first().subrange(0, i - 1)[k] by {
                assert(a.subrange(0, i)[k + 1] == a[k + 1]);
                assert(b.subrange(0, i)[k + 1] == b[k + 1]);
            }
        }
        lemma_lex_skip(a.drop_first(), b.drop_first(), i - 1);
        assert(a.drop_first().skip(i - 1) =~= a.skip(i));
        assert(b.drop_first().skip(i - 1) =~= b.skip(i));
    } else {
        assert(a.skip(0) =~= a);
        assert(b.skip(0) =~= b);
    }
}

fn lex_le_exec(a: &Vec<char>, b: &Vec<char>) -> (r: bool)
    ensures
        r == lex_le(a@, b@),
{
    let na = a.len();
    let nb = b.len();
    let mut i: usize = 0;
    while i < na && i < nb
        invariant
            i <= na,
            i <= nb,
            na == a@.len(),
            nb == b@.len(),
            a@.subrange(0, i as int) == b@.subrange(0, i as int),
        decreases na - i,
    {
        if a[i] != b[i] {
            proof {
                lemma_lex_skip(a@, b@, i as int);
                assert(a@.skip(i as int).len() > 0);
                assert(b@.skip(i as int).len() > 0);
                assert(a@.skip(i as int)[0] == a@[i as int]);
                assert(b@.skip(i as int)[0] == b@[i as int]);
                assert(lex_le(a@, b@) == (a@[i as int] < b@[i as int]));
            }
            return a[i] < b[i];
        }
        proof {
            assert(a@.subrange(0, i + 1) =~= b@.subrange(0, i + 1));
        }
        i += 1;
    }
    proof {
        lemma_lex_skip(a@, b@, i as int);
        if i == na {
            assert(a@.skip(i as int).len() == 0);
        } else {
            assert(b@.skip(i as int).len() == 0);
            assert(a@.skip(i as int).len() > 0);
        }
    }
    na <= nb
}

/// The listing is sorted by pattern text.
pub open spec fn sorted_by_key(s: Seq<(Seq<char>, u64)>) -> bool {
    forall|i: int, j: int| 0 <= i < j < s.len() ==> lex_le(#[trigger] s[i].0, #[trigger] s[j].0)
}

/// The pattern hits ordered by pattern text: the same pairs, sorted.
pub fn iter_pattern_hits(hits: &Vec<(String, u64)>) -> (r: Vec<(String, u64)>)
    ensures
        r.deep_view().to_multiset() == hits.deep_view().to_multiset(),
        sorted_by_key(r.deep_view()),
{
    let n = hits.len();
    let mut work: Vec<(String, u64)> = Vec::new();
    let mut i: usize = 0;
    while i < n
        invariant
            i <= n,
            n == hits@.len(),
            work.deep_view() == hits.deep_view().subrange(0, i as int),
        decreases n - i,
    {
        let ghost wv0 = work.deep_view();
        work.push((hits[i].0.clone(), hits[i].1));
        proof {
            assert(work@.last().deep_view() == hits.deep_view()[i as int]);
            assert(work.deep_view() =~~= wv0.push(hits.deep_view()[i as int]));
            assert(work.deep_view() =~~= hits.deep_view().subrange(0, i + 1));
        }
        i += 1;
    }
    proof {
        assert(hits.deep_view().subrange(0, n as int) =~= hits.deep_view());
        assert(Seq::<(Seq<char>, u64)>::empty().to_multiset() =~= Multiset::empty());
        assert(Multiset::<(Seq<char>, u64)>::empty().add(work.deep_view().to_multiset()) =~=
            work.deep_view().to_multiset());
    }
    let mut out: Vec<(String, u64)> = Vec::new();
    while work.len() > 0
        invariant
            out.deep_view().to_multiset().add(work.deep_view().to_multiset())
                == hits.deep_view().to_multiset(),
            sorted_by_key(out.deep_view()),
            forall|x: int, y: int|
                0 <= x < out.deep_view().len() && 0 <= y < work.deep_view().len() ==> lex_le(
                    (#[trigger] out.deep_view()[x]).0,
                    (#[trigger] work.deep_view()[y]).0,
                ),
        decreases work@.len(),
    {
        let wn = work.len();
        let mut m: usize = 0;
        let mut j: usize = 1;
        proof {
            lemma_lex_refl(work.deep_view()[0].0);
        }
        while j < wn
            invariant
                m < j <= wn,
                wn == work@.len(),
                forall|k: int|
                    0 <= k < j ==> lex_le(
                        work.deep_view()[m as int].0,
                        (#[trigger] work.deep_view()[k]).0,
                    ),
            decreases wn - j,
        {
            let a = chars_of(work[m].0.as_str());
            let b = chars_of(work[j].0.as_str());
            proof {
                assert(a@ == work.deep_view()[m as int].0);
                assert(b@ == work.deep_view()[j as int].0);
            }
            if !lex_le_exec(&a, &b) {
                proof {
                    lemma_lex_total(a@, b@);
                    assert forall|k: int| 0 <= k < j + 1 implies lex_le(
                        work.deep_view()[j as int].0,
                        (#[trigger] work.deep_view()[k]).0,
                    ) by {
                        if k < j {
                            lemma_lex_trans(
                                work.deep_view()[j as int].0,
                                work.deep_view()[m as int].0,
                                work.deep_view()[k].0,
                            );
                        } else {
                            lemma_lex_refl(b@);
                        }
                    }
                }
                m = j;
            } else {
                proof {
                    assert(lex_le(work.deep_view()[m as int].0, work.deep_view()[j as int].0));
                }
            }
            j += 1;
        }
        let ghost wv0 = work.deep_view();
        let ghost ov0 = out.deep_view();
        let item = work.remove(m);
        out.push(item);
        proof {
            assert(out@.last().deep_view() == wv0[m as int]);
            assert(out.deep_view() =~~= ov0.push(wv0[m as int]));
            assert(work.deep_view() =~~= wv0.remove(m as int));
            assert(ov0.push(wv0[m as int]).to_multiset() =~= ov0.to_multiset().insert(
                wv0[m as int],
            ));
            assert(out.deep_view().to_multiset() == ov0.to_multiset().insert(wv0[m as int]));
            assert(wv0.remove(m as int).to_multiset() =~= wv0.to_multiset().remove(wv0[m as int]));
            assert(work.deep_view().to_multiset() == wv0.to_multiset().remove(wv0[m as int]));
            assert(wv0.to_multiset().count(wv0[m as int]) > 0) by {
                assert(wv0.contains(wv0[m as int]));
            }
            assert(out.deep_view().to_multiset().add(work.deep_view().to_multiset()) =~= ov0
                .to_multiset().add(wv0.to_multiset()));
            assert forall|x: int, y: int|
                0 <= x < out.deep_view().len() && 0 <= y < work.deep_view().len() implies lex_le(
                (#[trigger] out.deep_view()[x]).0,
                (#[trigger] work.deep_view()[y]).0,
            ) by {
                let wy = if y < m as int {
                    y
                } else {
                    y + 1
                };
                assert(work.deep_view()[y] == wv0[wy]);
                if x < ov0.len() {
                    assert(lex_le(ov0[x].0, wv0[wy].0));
                } else {
                    assert(out.deep_view()[x] == wv0[m as int]);
                    assert(lex_le(wv0[m as int].0, wv0[wy].0));
                }
            }
            assert(sorted_by_key(out.deep_view())) by {
                assert forall|x: int, y: int|
                    0 <= x < y < out.deep_view().len() implies lex_le(
                    (#[trigger] out.deep_view()[x]).0,
                    (#[trigger] out.deep_view()[y]).0,
                ) by {
                    if y < ov0.len() {
                        assert(lex_le(ov0[x].0, ov0[y].0));
                    } else {
                        assert(out.deep_view()[y] == wv0[m as int]);
                        assert(lex_le(ov0[x].0, wv0[m as int].0));
                    }
                }
            }
        }
    }
    proof {
        assert(work.deep_view().len() == 0);
        assert(work.deep_view().to_multiset().len() == 0);
        assert(out.deep_view().to_multiset().add(work.deep_view().to_multiset()) =~= out
            .deep_view().to_multiset());
    }
    out
}

} // verus!
