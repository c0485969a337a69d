//! Text normalization and chunking.
//!
//! Document text is normalized (lines trimmed, blank stretches removed,
//! consecutive whitespace collapsed to single spaces) and then split into
//! bounded-size chunks at word boundaries. Both operations are total, pure
//! functions of their inputs; the chunks of a text carry exactly its words,
//! in order, with no loss and no duplication.

use vstd::prelude::*;
use vstd::string::StrSliceExecFns;
use vstd::string::StringExecFns;
use crate::strings::push_char;

verus! {

/// The whitespace characters that normalization and chunking recognize:
/// the Unicode White_Space set (the class `str::split_whitespace` and
/// `str::trim` collapse).
pub open spec fn is_space_char(c: char) -> bool {
    ||| c == '\u{0009}'
    ||| c == '\u{000A}'
    ||| c == '\u{000B}'
    ||| c == '\u{000C}'
    ||| c == '\u{000D}'
    ||| c == '\u{0020}'
    ||| c == '\u{0085}'
    ||| c == '\u{00A0}'
    ||| c == '\u{1680}'
    ||| c == '\u{2000}'
    ||| c == '\u{2001}'
    ||| c == '\u{2002}'
    ||| c == '\u{2003}'
    ||| c == '\u{2004}'
    ||| c == '\u{2005}'
    ||| c == '\u{2006}'
    ||| c == '\u{2007}'
    ||| c == '\u{2008}'
    ||| c == '\u{2009}'
    ||| c == '\u{200A}'
    ||| c == '\u{2028}'
    ||| c == '\u{2029}'
    ||| c == '\u{202F}'
    ||| c == '\u{205F}'
    ||| c == '\u{3000}'
}

/// Executable twin of `is_space_char`.
pub fn is_space(c: char) -> (r: bool)
    ensures
        r == is_space_char(c),
{
    c == '\u{0009}' || c == '\u{000A}' || c == '\u{000B}' || c == '\u{000C}' || c == '\u{000D}'
        || c == '\u{0020}' || c == '\u{0085}' || c == '\u{00A0}' || c == '\u{1680}' || c
        == '\u{2000}' || c == '\u{2001}' || c == '\u{2002}' || c == '\u{2003}' || c == '\u{2004}'
        || c == '\u{2005}' || c == '\u{2006}' || c == '\u{2007}' || c == '\u{2008}' || c
        == '\u{2009}' || c == '\u{200A}' || c == '\u{2028}' || c == '\u{2029}' || c == '\u{202F}'
        || c == '\u{205F}' || c == '\u{3000}'
}

/// The words of `s` read left to right: `acc` holds the words already
/// completed and `cur` the run of non-whitespace characters currently open.
pub open spec fn words_acc(s: Seq<char>, acc: Seq<Seq<char>>, cur: Seq<char>) -> Seq<Seq<char>>
    decreases s.len(),
{
    if s.len() == 0 {
        if cur.len() == 0 {
            acc
        } else {
            acc.push(cur)
        }
    } else if is_space_char(s[0]) {
        if cur.len() == 0 {
            words_acc(s.drop_first(), acc, Seq::empty())
        } else {
            words_acc(s.drop_first(), acc.push(cur), Seq::empty())
        }
    } else {
        words_acc(s.drop_first(), acc, cur.push(s[0]))
    }
}

/// The words of `s`: its maximal runs of non-whitespace characters, in order.
pub open spec fn words(s: Seq<char>) -> Seq<Seq<char>> {
    words_acc(s, Seq::empty(), Seq::empty())
}

/// A well-formed word: non-empty and free of whitespace.
pub open spec fn word_wf(w: Seq<char>) -> bool {
    w.len() > 0 && forall|j: int| 0 <= j < w.len() ==> !is_space_char(#[trigger] w[j])
}

/// All elements of `ws` are well-formed words.
pub open spec fn words_wf(ws: Seq<Seq<char>>) -> bool {
    forall|i: int| 0 <= i < ws.len() ==> word_wf(#[trigger] ws[i])
}

/// The words joined by single spaces.
pub open spec fn join_spaced(ws: Seq<Seq<char>>) -> Seq<char>
    decreases ws.len(),
{
    if ws.len() == 0 {
        Seq::empty()
    } else if ws.len() == 1 {
        ws[0]
    } else {
        ws[0] + seq![' '] + join_spaced(ws.drop_first())
    }
}

/// The words of all of `cs`, concatenated in order.
pub open spec fn words_of_all(cs: Seq<Seq<char>>) -> Seq<Seq<char>>
    decreases cs.len(),
{
    if cs.len() == 0 {
        Seq::empty()
    } else {
        words(cs[0]) + words_of_all(cs.drop_first())
    }
}

/// Reading a whole word extends the open run and completes no word.
proof fn lemma_words_acc_word(w: Seq<char>, s: Seq<char>, acc: Seq<Seq<char>>, cur: Seq<char>)
    requires
        forall|j: int| 0 <= j < w.len() ==> !is_space_char(#[trigger] w[j]),
    ensures
        words_acc(w + s, acc, cur) == words_acc(s, acc, cur + w),
    decreases w.len(),
{
    if w.len() == 0 {
        assert(w + s =~= s);
        assert(cur + w =~= cur);
    } else {
        assert((w + s)[0] == w[0]);
        assert((w + s).drop_first() =~= w.drop_first() + s);
        lemma_words_acc_word(w.drop_first(), s, acc, cur.push(w[0]));
        assert(cur.push(w[0]) + w.drop_first() =~= cur + w);
    }
}

/// Reading the space-joined words from a state with no open run completes
/// exactly those words, in order.
proof fn lemma_words_acc_join(ws: Seq<Seq<char>>, acc: Seq<Seq<char>>)
    requires
        words_wf(ws),
    ensures
        words_acc(join_spaced(ws), acc, Seq::empty()) == acc + ws,
    decreases ws.len(),
{
    if ws.len() == 0 {
        assert(acc + ws =~= acc);
    } else if ws.len() == 1 {
        lemma_words_acc_word(ws[0], Seq::empty(), acc, Seq::empty());
        assert(ws[0] + Seq::<char>::empty() =~= ws[0]);
        assert(Seq::<char>::empty() + ws[0] =~= ws[0]);
        assert(words_acc(Seq::<char>::empty(), acc, ws[0]) == acc.push(ws[0]));
        assert(acc.push(ws[0]) =~= acc + ws);
    } else {
        let rest = ws.drop_first();
        let tail = seq![' '] + join_spaced(rest);
        assert(join_spaced(ws) =~= ws[0] + tail);
        lemma_words_acc_word(ws[0], tail, acc, Seq::empty());
        assert(Seq::<char>::empty() + ws[0] =~= ws[0]);
        // One step over the separating space completes ws[0].
        assert(tail[0] == ' ');
        assert(tail.drop_first() =~= join_spaced(rest));
        assert(words_acc(tail, acc, ws[0]) == words_acc(
            join_spaced(rest),
            acc.push(ws[0]),
            Seq::empty(),
        ));
        lemma_words_acc_join(rest, acc.push(ws[0]));
        assert(acc.push(ws[0]) + rest =~= acc + ws);
    }
}

/// Well-formed words joined by single spaces split back into exactly those
/// words: joining and splitting lose and duplicate nothing.
pub proof fn lemma_words_of_join(ws: Seq<Seq<char>>)
    requires
        words_wf(ws),
    ensures
        words(join_spaced(ws)) == ws,
{
    lemma_words_acc_join(ws, Seq::empty());
    assert(Seq::<Seq<char>>::empty() + ws =~= ws);
}

/// Appending one word on the right of a join appends a space and the word.
proof fn lemma_join_push(ws: Seq<Seq<char>>, w: Seq<char>)
    ensures
        join_spaced(ws.push(w)) == if ws.len() == 0 {
            w
        } else {
            join_spaced(ws) + seq![' '] + w
        },
    decreases ws.len(),
{
    let e = ws.push(w);
    if ws.len() == 0 {
        assert(e.len() == 1);
        assert(e[0] == w);
    } else if ws.len() == 1 {
        assert(e[0] == ws[0]);
        assert(e.drop_first() =~= seq![w]);
        assert(join_spaced(seq![w]) == seq![w][0]);
        assert(seq![w][0] == w);
        assert(join_spaced(e) == e[0] + seq![' '] + join_spaced(e.drop_first()));
        assert(join_spaced(ws) == ws[0]);
    } else {
        assert(e[0] == ws[0]);
        assert(e.drop_first() =~= ws.drop_first().push(w));
        lemma_join_push(ws.drop_first(), w);
        assert(ws[0] + seq![' '] + (join_spaced(ws.drop_first()) + seq![' '] + w) =~= (ws[0]
            + seq![' '] + join_spaced(ws.drop_first())) + seq![' '] + w);
    }
}

/// Appending one chunk on the right appends its words.
proof fn lemma_words_of_all_push(cs: Seq<Seq<char>>, c: Seq<char>)
    ensures
        words_of_all(cs.push(c)) == words_of_all(cs) + words(c),
    decreases cs.len(),
{
    let e = cs.push(c);
    if cs.len() == 0 {
        assert(e.drop_first() =~= Seq::<Seq<char>>::empty());
        assert(e[0] == c);
        assert(words(c) + words_of_all(Seq::<Seq<char>>::empty()) =~= words(c));
        assert(words_of_all(cs) + words(c) =~= words(c));
    } else {
        assert(e[0] == cs[0]);
        assert(e.drop_first() =~= cs.drop_first().push(c));
        lemma_words_of_all_push(cs.drop_first(), c);
        assert(words(cs[0]) + (words_of_all(cs.drop_first()) + words(c)) =~= (words(cs[0])
            + words_of_all(cs.drop_first())) + words(c));
    }
}

/// Splits `s` into its words: the maximal runs of non-whitespace characters,
/// in order.
pub fn split_words(s: &str) -> (r: Vec<String>)
    ensures
        r.deep_view() == words(s@),
        words_wf(r.deep_view()),
{
    let n = s.unicode_len();
    let mut out: Vec<String> = Vec::new();
    let mut cur = String::new();
    let mut i: usize = 0;
    assert(s@.skip(0) =~= s@);
    assert(out.deep_view() =~= Seq::<Seq<char>>::empty());
    while i < n
        invariant
            n == s@.len(),
            i <= n,
            words_acc(s@.skip(i as int), out.deep_view(), cur@) == words(s@),
            words_wf(out.deep_view()),
            forall|j: int| 0 <= j < cur@.len() ==> !is_space_char(#[trigger] cur@[j]),
        decreases n - i,
    {
        let ghost pre = s@.skip(i as int);
        let ghost done = out.deep_view();
        assert(pre.drop_first() =~= s@.skip(i as int + 1));
        assert(pre[0] == s@[i as int]);
        let c = s.get_char(i);
        if is_space(c) {
            if !cur.as_str().is_empty() {
                let ghost curv = cur@;
                assert(words_acc(pre, done, curv) == words_acc(pre.drop_first(), done.push(curv), Seq::empty()));
                out.push(cur);
                cur = String::new();
                assert(out.deep_view() =~= done.push(curv));
                assert(word_wf(curv));
                assert(words_wf(out.deep_view()));
            } else {
                assert(cur@ =~= Seq::<char>::empty());
                assert(words_acc(pre, done, cur@) == words_acc(pre.drop_first(), done, Seq::empty()));
            }
        } else {
            assert(words_acc(pre, done, cur@) == words_acc(pre.drop_first(), done, cur@.push(pre[0])));
            push_char(&mut cur, c);
        }
        i = i + 1;
    }
    assert(s@.skip(n as int) =~= Seq::<char>::empty());
    if !cur.as_str().is_empty() {
        let ghost done = out.deep_view();
        let ghost curv = cur@;
        assert(words_acc(Seq::<char>::empty(), done, curv) == done.push(curv));
        out.push(cur);
        assert(out.deep_view() =~= done.push(curv));
        assert(word_wf(curv));
        assert(words_wf(out.deep_view()));
    }
    out
}

/// Joins words with single spaces.
pub fn join_words(ws: &Vec<String>) -> (r: String)
    ensures
        r@ == join_spaced(ws.deep_view()),
{
    let ghost all = ws.deep_view();
    let mut r = String::new();
    let mut j: usize = 0;
    assert(all.take(0) =~= Seq::<Seq<char>>::empty());
    while j < ws.len()
        invariant
            j <= ws.len(),
            all == ws.deep_view(),
            ws.len() == all.len(),
            r@ == join_spaced(all.take(j as int)),
        decreases ws.len() - j,
    {
        proof {
            lemma_join_push(all.take(j as int), all[j as int]);
            assert(all.take(j as int).push(all[j as int]) =~= all.take(j as int + 1));
        }
        if j > 0 {
            push_char(&mut r, ' ');
        }
        assert(ws@[j as int]@ == all[j as int]);
        r.append(ws[j].as_str());
        proof {
            if j == 0 {
                assert(r@ =~= join_spaced(all.take(1)));
            }
        }
        j = j + 1;
    }
    assert(all.take(ws@.len() as int) =~= all);
    r
}

/// Normalizes whitespace: every line trimmed, blank stretches removed, and
/// all runs of whitespace collapsed, leaving the words of the input joined
/// by single spaces.
pub fn clean_whitespace(text: &str) -> (r: String)
    ensures
        r@ == join_spaced(words(text@)),
{
    let ws = split_words(text);
    join_words(&ws)
}

/// A chunk produced by the packer: non-empty, exactly its words joined by
/// single spaces, and within the size budget unless it holds one single
/// oversized word.
pub open spec fn chunk_wf(c: Seq<char>, chunk_size: int) -> bool {
    &&& words(c).len() >= 1
    &&& words_wf(words(c))
    &&& c.len() >= 1
    &&& c == join_spaced(words(c))
    &&& (words(c).len() >= 2 ==> c.len() <= chunk_size)
}

/// Every chunk is as full as the budget allows: no chunk could also take
/// the first word of the chunk after it.
pub open spec fn chunks_maximal(cs: Seq<Seq<char>>, chunk_size: int) -> bool {
    forall|i: int|
        0 <= i < cs.len() - 1 ==> (#[trigger] cs[i]).len() + 1 + words(cs[i + 1])[0].len()
            > chunk_size
}

/// A prefix of the words joins to no more text than all of them.
proof fn lemma_join_prefix_len(ws: Seq<Seq<char>>, j: int)
    requires
        0 <= j <= ws.len(),
    ensures
        join_spaced(ws.take(j)).len() <= join_spaced(ws).len(),
    decreases ws.len() - j,
{
    if j < ws.len() {
        lemma_join_push(ws.take(j), ws[j]);
        assert(ws.take(j).push(ws[j]) =~= ws.take(j + 1));
        lemma_join_prefix_len(ws, j + 1);
    } else {
        assert(ws.take(j) =~= ws);
    }
}

/// Greedily packs words into chunks: each chunk is a run of consecutive
/// words joined by single spaces, extended while the joined length stays
/// within `chunk_size`; a word longer than the budget stands alone. No
/// chunk could also take the first word of the next one, and words that
/// fit the budget all together come back as one single chunk.
#[verifier::rlimit(100)]
pub fn pack_words(ws: &Vec<String>, chunk_size: usize) -> (r: Vec<String>)
    requires
        words_wf(ws.deep_view()),
    ensures
        words_of_all(r.deep_view()) == ws.deep_view(),
        r@.len() == 0 <==> ws@.len() == 0,
        forall|i: int| 0 <= i < r@.len() ==> chunk_wf(#[trigger] r.deep_view()[i], chunk_size as int),
        chunks_maximal(r.deep_view(), chunk_size as int),
        ws@.len() > 0 && join_spaced(ws.deep_view()).len() <= chunk_size ==> (r@.len() == 1
            && r.deep_view()[0] == join_spaced(ws.deep_view())),
{
    let ghost all = ws.deep_view();
    let mut result: Vec<String> = Vec::new();
    let mut group: Vec<String> = Vec::new();
    let mut group_len: usize = 0;
    let mut idx: usize = 0;
    assert(all.take(0) =~= Seq::<Seq<char>>::empty());
    assert(words_of_all(result.deep_view()) + group.deep_view() =~= all.take(0));
    while idx < ws.len()
        invariant
            idx <= ws.len(),
            all == ws.deep_view(),
            ws.len() == all.len(),
            words_wf(all),
            words_of_all(result.deep_view()) + group.deep_view() == all.take(idx as int),
            words_wf(group.deep_view()),
            group_len == join_spaced(group.deep_view()).len(),
            group.len() >= 1 ==> group_len >= 1,
            group.len() >= 2 ==> group_len <= chunk_size,
            idx > 0 ==> group.len() >= 1,
            result@.len() > 0 ==> group.len() >= 1,
            forall|i: int|
                0 <= i < result@.len() ==> chunk_wf(
                    #[trigger] result.deep_view()[i],
                    chunk_size as int,
                ),
            chunks_maximal(result.deep_view(), chunk_size as int),
            result@.len() > 0 && group@.len() > 0 ==> result.deep_view().last().len() + 1
                + group.deep_view()[0].len() > chunk_size,
            join_spaced(all).len() <= chunk_size ==> result@.len() == 0,
        decreases ws.len() - idx,
    {
        let ghost grp = group.deep_view();
        let w = ws[idx].clone();
        assert(w@ == all[idx as int]);
        assert(word_wf(w@));
        let wlen = w.as_str().unicode_len();
        proof {
            lemma_join_push(grp, w@);
        }
        if group_len == 0 {
            assert(group.len() == 0);
            assert(grp =~= Seq::<Seq<char>>::empty());
            group.push(w);
            group_len = wlen;
            assert(group.deep_view() =~= grp.push(all[idx as int]));
            assert(result@.len() == 0);
        } else if group_len < chunk_size && chunk_size - group_len - 1 >= wlen {
            group.push(w);
            group_len = group_len + 1 + wlen;
            assert(group.deep_view() =~= grp.push(all[idx as int]));
            assert(group.deep_view()[0] == grp[0]);
        } else {
            // The word does not fit: close the current chunk, open a new one.
            assert(group_len as int + 1 + wlen as int > chunk_size as int);
            proof {
                // Packing everything into one chunk is ruled out here: the
                // words read so far plus this one already exceed the budget.
                if join_spaced(all).len() <= chunk_size {
                    assert(result.deep_view() =~= Seq::<Seq<char>>::empty());
                    assert(grp =~= all.take(idx as int));
                    assert(all.take(idx as int).push(all[idx as int]) =~= all.take(idx as int + 1));
                    lemma_join_prefix_len(all, idx as int + 1);
                    assert(false);
                }
            }
            let chunk = join_words(&group);
            proof {
                lemma_words_of_join(grp);
                lemma_words_of_all_push(result.deep_view(), chunk@);
            }
            let ghost donev = result.deep_view();
            result.push(chunk);
            proof {
                assert(result.deep_view() =~= donev.push(join_spaced(grp)));
                let rv = result.deep_view();
                assert(chunk_wf(rv[donev.len() as int], chunk_size as int));
                assert(chunks_maximal(rv, chunk_size as int)) by {
                    assert forall|i: int|
                        0 <= i < rv.len() - 1 implies (#[trigger] rv[i]).len() + 1 + words(
                        rv[i + 1],
                    )[0].len() > chunk_size as int by {
                        if i < donev.len() - 1 {
                            assert(rv[i] == donev[i]);
                            assert(rv[i + 1] == donev[i + 1]);
                        } else {
                            assert(rv[i] == donev.last());
                            assert(rv[i + 1] == join_spaced(grp));
                            assert(words(join_spaced(grp)) == grp);
                        }
                    }
                }
            }
            group = Vec::new();
            group.push(w);
            group_len = wlen;
            assert(group.deep_view() =~= Seq::<Seq<char>>::empty().push(all[idx as int]));
            assert(join_spaced(group.deep_view()) == all[idx as int]);
            assert(result.deep_view().last() == join_spaced(grp));
            assert(result.deep_view().last().len() + 1 + group.deep_view()[0].len()
                > chunk_size);
        }
        proof {
            assert(all.take(idx as int + 1) =~= all.take(idx as int).push(all[idx as int]));
            assert(words_of_all(result.deep_view()) + group.deep_view() =~= all.take(idx as int
                + 1));
        }
        idx = idx + 1;
    }
    assert(all.take(ws@.len() as int) =~= all);
    if group.len() > 0 {
        let ghost grp = group.deep_view();
        let chunk = join_words(&group);
        proof {
            lemma_words_of_join(grp);
            lemma_words_of_all_push(result.deep_view(), chunk@);
        }
        let ghost donev = result.deep_view();
        result.push(chunk);
        proof {
            assert(result.deep_view() =~= donev.push(join_spaced(grp)));
            assert(words_of_all(result.deep_view()) =~= all);
            let rv = result.deep_view();
            assert(chunk_wf(rv[donev.len() as int], chunk_size as int));
            assert(chunks_maximal(rv, chunk_size as int)) by {
                assert forall|i: int|
                    0 <= i < rv.len() - 1 implies (#[trigger] rv[i]).len() + 1 + words(
                    rv[i + 1],
                )[0].len() > chunk_size as int by {
                    if i < donev.len() - 1 {
                        assert(rv[i] == donev[i]);
                        assert(rv[i + 1] == donev[i + 1]);
                    } else {
                        assert(rv[i] == donev.last());
                        assert(rv[i + 1] == join_spaced(grp));
                        assert(words(join_spaced(grp)) == grp);
                    }
                }
            }
            if all.len() > 0 && join_spaced(all).len() <= chunk_size {
                assert(donev =~= Seq::<Seq<char>>::empty());
                assert(grp =~= all);
                assert(rv =~= seq![join_spaced(all)]);
            }
        }
    } else {
        assert(group.deep_view() =~= Seq::<Seq<char>>::empty());
        assert(words_of_all(result.deep_view()) =~= all);
    }
    result
}

/// The default chunk size budget, in characters.
pub const DEFAULT_CHUNK_SIZE: usize = 1000;

/// Splits document text into bounded-size chunks: the text is normalized
/// (whitespace collapsed) and its words are packed greedily into chunks of
/// at most `chunk_size` characters, breaking only at word boundaries; a
/// single word longer than the budget stands as its own chunk, and no
/// chunk could also take the first word of the next one. The chunks carry
/// exactly the words of the input, in order: nothing is lost and nothing
/// is duplicated; empty input yields no chunks, and input that fits the
/// budget after normalization yields that one chunk.
pub fn chunk_markdown_content(content: &str, chunk_size: usize) -> (r: Vec<String>)
    ensures
        words_of_all(r.deep_view()) == words(content@),
        r@.len() == 0 <==> words(content@).len() == 0,
        forall|i: int| 0 <= i < r@.len() ==> chunk_wf(#[trigger] r.deep_view()[i], chunk_size as int),
        chunks_maximal(r.deep_view(), chunk_size as int),
        words(content@).len() > 0 && join_spaced(words(content@)).len() <= chunk_size ==> (
        r@.len() == 1 && r.deep_view()[0] == join_spaced(words(content@))),
{
    let ws = split_words(content);
    pack_words(&ws, chunk_size)
}

} // verus!
