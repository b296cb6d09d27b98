//! Parenthetical-content stripper.
//!
//! A single forward pass over the grapheme clusters of a text deletes
//! every run of graphemes that lies inside a `(...)` span of the plain
//! text, while text inside a markup tag span (`<...>`) is kept
//! verbatim, parentheses included.  Two signed depth counters drive
//! the pass: the tag depth is only updated while no parenthetical span
//! is open, and the parenthesis depth is only updated while no tag
//! span is open.  A grapheme is emitted either because a tag span is
//! open, or because the parenthesis depth is exactly zero once an
//! opening `(` has been counted and before a closing `)` is counted;
//! the delimiters of a stripped span are therefore never emitted, and
//! an unbalanced `)` may drive the depth negative without suppressing
//! later output.

use vstd::prelude::*;
use vstd::string::StringExecFns;
use crate::text::graphemes;
use crate::text::graphemes_of;

verus! {

/// The characters emitted by the stripping pass that starts at
/// grapheme `i` with the given tag and parenthesis depths.
pub open spec fn strip_from(gs: Seq<Seq<char>>, i: int, tag: int, paren: int) -> Seq<char>
    decreases gs.len() - i,
{
    if i < 0 || i >= gs.len() {
        Seq::empty()
    } else {
        let g = gs[i];
        let tag2 = if paren <= 0 {
            if g == seq!['<'] {
                tag + 1
            } else if g == seq!['>'] {
                tag - 1
            } else {
                tag
            }
        } else {
            tag
        };
        if tag2 <= 0 {
            let paren2 = if g == seq!['('] {
                paren + 1
            } else {
                paren
            };
            let paren3 = if g == seq![')'] {
                paren2 - 1
            } else {
                paren2
            };
            if paren2 == 0 {
                g + strip_from(gs, i + 1, tag2, paren3)
            } else {
                strip_from(gs, i + 1, tag2, paren3)
            }
        } else {
            g + strip_from(gs, i + 1, tag2, paren)
        }
    }
}

/// The characters emitted by the whole stripping pass over a grapheme
/// stream, both depths starting at zero.
pub open spec fn strip_spec(gs: Seq<Seq<char>>) -> Seq<char> {
    strip_from(gs, 0, 0, 0)
}

/// Deletes the plain-text parenthesized spans of `s` and returns the
/// rest, keeping tag spans verbatim.
pub fn delete_parentheses(s: String) -> (r: String)
    ensures
        r@ == strip_spec(graphemes_of(s@)),
{
    let gs = graphemes(s.as_str());
    let ghost gsv: Seq<Seq<char>> = gs.deep_view();
    let lt = String::from_str("<");
    let gt = String::from_str(">");
    let lp = String::from_str("(");
    let rp = String::from_str(")");
    proof {
        reveal_strlit("<");
        reveal_strlit(">");
        reveal_strlit("(");
        reveal_strlit(")");
        assert(lt@ =~= seq!['<']);
        assert(gt@ =~= seq!['>']);
        assert(lp@ =~= seq!['(']);
        assert(rp@ =~= seq![')']);
    }
    let mut result = String::new();
    let mut tag: i128 = 0;
    let mut paren: i128 = 0;
    let n = gs.len();
    let mut i: usize = 0;
    while i < n
        invariant
            n == gs.len(),
            gs.deep_view() == gsv,
            i <= n,
            -(i as int) <= tag as int <= i as int,
            -(i as int) <= paren as int <= i as int,
            result@ + strip_from(gsv, i as int, tag as int, paren as int) == strip_spec(gsv),
            lt@ == seq!['<'],
            gt@ == seq!['>'],
            lp@ == seq!['('],
            rp@ == seq![')'],
        decreases n - i,
    {
        let g = &gs[i];
        assert(g@ == gsv[i as int]);
        let ghost tag0: int = tag as int;
        let ghost paren0: int = paren as int;
        if paren <= 0 {
            if *g == lt {
                tag = tag + 1;
            } else if *g == gt {
                tag = tag - 1;
            }
        }
        if tag <= 0 {
            if *g == lp {
                paren = paren + 1;
            }
            if paren == 0 {
                result.append(g.as_str());
            }
            if *g == rp {
                paren = paren - 1;
            }
        } else {
            result.append(g.as_str());
        }
        proof {
            let g = gsv[i as int];
            let tag2: int = if paren0 <= 0 {
                if g == seq!['<'] {
                    tag0 + 1
                } else if g == seq!['>'] {
                    tag0 - 1
                } else {
                    tag0
                }
            } else {
                tag0
            };
            if tag2 <= 0 {
                let paren2: int = if g == seq!['('] {
                    paren0 + 1
                } else {
                    paren0
                };
                let paren3: int = if g == seq![')'] {
                    paren2 - 1
                } else {
                    paren2
                };
                if paren2 == 0 {
                    assert(strip_from(gsv, i as int, tag0, paren0) == g + strip_from(
                        gsv,
                        i + 1,
                        tag2,
                        paren3,
                    ));
                } else {
                    assert(strip_from(gsv, i as int, tag0, paren0) == strip_from(
                        gsv,
                        i + 1,
                        tag2,
                        paren3,
                    ));
                }
                assert(tag as int == tag2 && paren as int == paren3);
            } else {
                assert(strip_from(gsv, i as int, tag0, paren0) == g + strip_from(
                    gsv,
                    i + 1,
                    tag2,
                    paren0,
                ));
                assert(tag as int == tag2 && paren as int == paren0);
            }
            assert(result@ + strip_from(gsv, i + 1, tag as int, paren as int) == strip_spec(gsv));
        }
        i = i + 1;
    }
    result
}

/// The stripping pass emits every grapheme of a parenthesis-free
/// suffix, whatever the tag depth, as long as no parenthetical span is
/// open.
proof fn lemma_strip_from_no_parens(gs: Seq<Seq<char>>, i: int, tag: int)
    requires
        0 <= i <= gs.len(),
        forall|j: int|
            i <= j < gs.len() ==> !(#[trigger] gs[j]).contains('(') && !gs[j].contains(')'),
    ensures
        strip_from(gs, i, tag, 0) == gs.skip(i).flatten(),
    decreases gs.len() - i,
{
    if i == gs.len() {
        assert(gs.skip(i) =~= Seq::<Seq<char>>::empty());
        assert(gs.skip(i).flatten() =~= Seq::<char>::empty());
    } else {
        let g = gs[i];
        assert(g != seq!['(']) by {
            if g == seq!['('] {
                assert(gs[i].contains('(')) by {
                    assert(gs[i][0] == '(');
                }
            }
        }
        assert(g != seq![')']) by {
            if g == seq![')'] {
                assert(gs[i].contains(')')) by {
                    assert(gs[i][0] == ')');
                }
            }
        }
        let tag2 = if g == seq!['<'] {
            tag + 1
        } else if g == seq!['>'] {
            tag - 1
        } else {
            tag
        };
        lemma_strip_from_no_parens(gs, i + 1, tag2);
        assert(strip_from(gs, i, tag, 0) == g + gs.skip(i + 1).flatten());
        assert(gs.skip(i).drop_first() =~= gs.skip(i + 1));
        assert(gs.skip(i).flatten() == g + gs.skip(i + 1).flatten()) by {
            assert(gs.skip(i).first() == g);
        }
    }
}

/// Every character of every piece of a sequence of pieces occurs in
/// their concatenation.
proof fn lemma_flatten_elem(gs: Seq<Seq<char>>, j: int, k: int)
    requires
        0 <= j < gs.len(),
        0 <= k < gs[j].len(),
    ensures
        gs.flatten().contains(gs[j][k]),
    decreases j,
{
    assert(gs.flatten() == gs.first() + gs.drop_first().flatten());
    if j == 0 {
        assert(gs.flatten()[k] == gs[0][k]);
    } else {
        lemma_flatten_elem(gs.drop_first(), j - 1, k);
        let rest = gs.drop_first().flatten();
        let idx = choose|idx: int| 0 <= idx < rest.len() && rest[idx] == gs[j][k];
        assert(gs.flatten()[gs[0].len() + idx] == gs[j][k]);
    }
}

/// Law: stripping a text that holds no `(` and no `)` returns it
/// unchanged, for every decomposition of the text into graphemes.
pub proof fn lemma_strip_no_parens(gs: Seq<Seq<char>>, s: Seq<char>)
    requires
        gs.flatten() == s,
        forall|i: int| 0 <= i < s.len() ==> s[i] != '(' && s[i] != ')',
    ensures
        strip_spec(gs) == s,
{
    assert forall|j: int|
        0 <= j < gs.len() implies !(#[trigger] gs[j]).contains('(') && !gs[j].contains(')') by {
        if gs[j].contains('(') {
            let k = choose|k: int| 0 <= k < gs[j].len() && gs[j][k] == '(';
            lemma_flatten_elem(gs, j, k);
        }
        if gs[j].contains(')') {
            let k = choose|k: int| 0 <= k < gs[j].len() && gs[j][k] == ')';
            lemma_flatten_elem(gs, j, k);
        }
    }
    lemma_strip_from_no_parens(gs, 0, 0);
    assert(gs.skip(0) =~= gs);
}

} // verus!
