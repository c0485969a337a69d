//! File selection during directory crawling: the modification-time filter
//! and the allow-list of convertible document types.

use vstd::prelude::*;
use vstd::string::StrSliceExecFns;

verus! {

/// Whether a file with the given modification time passes the optional
/// `since` filter. Files whose modification time could not be read are
/// kept, so that a missing timestamp never hides a file from ingestion.
pub fn should_include_file(since: Option<u64>, modified: Option<u64>) -> (r: bool)
    ensures
        r == match since {
            Option::None => true,
            Option::Some(s) => match modified {
                Option::None => true,
                Option::Some(m) => m >= s,
            },
        },
{
    match since {
        Option::None => true,
        Option::Some(s) => match modified {
            Option::None => true,
            Option::Some(m) => m >= s,
        },
    }
}

/// The position of the last occurrence of `c` in `s`.
pub open spec fn last_pos(s: Seq<char>, c: char) -> Option<int>
    decreases s.len(),
{
    if s.len() == 0 {
        Option::None
    } else if s.last() == c {
        Option::Some(s.len() - 1)
    } else {
        last_pos(s.drop_last(), c)
    }
}

/// `last_pos` names the last occurrence: the named position carries `c` and
/// no later one does; with no position, no character is `c`.
pub proof fn lemma_last_pos(s: Seq<char>, c: char)
    ensures
        match last_pos(s, c) {
            Option::None => forall|i: int| 0 <= i < s.len() ==> s[i] != c,
            Option::Some(p) => {
                &&& 0 <= p < s.len()
                &&& s[p] == c
                &&& forall|q: int| p < q < s.len() ==> s[q] != c
            },
        },
    decreases s.len(),
{
    if s.len() > 0 && s.last() != c {
        lemma_last_pos(s.drop_last(), c);
        assert(forall|i: int| 0 <= i < s.len() - 1 ==> s[i] == s.drop_last()[i]);
    }
}

/// The file name of a path: what follows the last path separator.
pub open spec fn file_name_of(path: Seq<char>) -> Seq<char> {
    match last_pos(path, '/') {
        Option::None => path,
        Option::Some(p) => path.skip(p + 1),
    }
}

/// The extension of a path: what follows the last dot of its file name.
/// A name with no dot, or whose only dot starts it, has no extension.
pub open spec fn extension_of(path: Seq<char>) -> Option<Seq<char>> {
    let name = file_name_of(path);
    match last_pos(name, '.') {
        Option::None => Option::None,
        Option::Some(p) => if p == 0 {
            Option::None
        } else {
            Option::Some(name.skip(p + 1))
        },
    }
}

/// Whether `a` is the letter `lower`, in either case.
pub open spec fn letter_eq(a: char, lower: char, upper: char) -> bool {
    a == lower || a == upper
}

/// The extensions of the document types the converter supports, compared
/// without regard to letter case.
pub open spec fn supported_extension_seq(e: Seq<char>) -> bool {
    ||| (e.len() == 3 && letter_eq(e[0], 'p', 'P') && letter_eq(e[1], 'd', 'D') && letter_eq(
        e[2],
        'f',
        'F',
    ))
    ||| (e.len() == 3 && letter_eq(e[0], 'd', 'D') && letter_eq(e[1], 'o', 'O') && letter_eq(
        e[2],
        'c',
        'C',
    ))
    ||| (e.len() == 3 && letter_eq(e[0], 'p', 'P') && letter_eq(e[1], 'p', 'P') && letter_eq(
        e[2],
        't',
        'T',
    ))
    ||| (e.len() == 4 && letter_eq(e[0], 'x', 'X') && letter_eq(e[1], 'l', 'L') && letter_eq(
        e[2],
        's',
        'S',
    ) && letter_eq(e[3], 'x', 'X'))
    ||| (e.len() == 4 && letter_eq(e[0], 'd', 'D') && letter_eq(e[1], 'o', 'O') && letter_eq(
        e[2],
        'c',
        'C',
    ) && letter_eq(e[3], 'x', 'X'))
    ||| (e.len() == 4 && letter_eq(e[0], 'p', 'P') && letter_eq(e[1], 'p', 'P') && letter_eq(
        e[2],
        't',
        'T',
    ) && letter_eq(e[3], 'x', 'X'))
}

/// Whether the path names a supported document type.
pub open spec fn supported_file_type(path: Seq<char>) -> bool {
    match extension_of(path) {
        Option::None => false,
        Option::Some(e) => supported_extension_seq(e),
    }
}

/// The position of the last occurrence of `c` in `s`, scanned forward.
fn last_index_of(s: &str, c: char) -> (r: Option<usize>)
    ensures
        match r {
            Option::None => last_pos(s@, c) is None,
            Option::Some(p) => last_pos(s@, c) == Option::Some(p as int) && p < s@.len(),
        },
{
    let n = s.unicode_len();
    let mut found: Option<usize> = Option::None;
    let mut i: usize = 0;
    while i < n
        invariant
            n == s@.len(),
            i <= n,
            match found {
                Option::None => forall|q: int| 0 <= q < i ==> s@[q] != c,
                Option::Some(p) => {
                    &&& p < i
                    &&& s@[p as int] == c
                    &&& forall|q: int| p < q < i ==> s@[q] != c
                },
            },
        decreases n - i,
    {
        if s.get_char(i) == c {
            found = Option::Some(i);
        }
        i = i + 1;
    }
    proof {
        lemma_last_pos(s@, c);
    }
    found
}

/// The characters of `s`.
fn chars_of(s: &str) -> (r: Vec<char>)
    ensures
        r@ == s@,
{
    let n = s.unicode_len();
    let mut out: Vec<char> = Vec::new();
    let mut i: usize = 0;
    while i < n
        invariant
            n == s@.len(),
            i <= n,
            out@ == s@.take(i as int),
        decreases n - i,
    {
        out.push(s.get_char(i));
        proof {
            assert(s@.take(i as int).push(s@[i as int]) =~= s@.take(i as int + 1));
        }
        i = i + 1;
    }
    proof {
        assert(s@.take(n as int) =~= s@);
    }
    out
}

/// Executable twin of `letter_eq`.
fn letter_eq_exec(a: char, lower: char, upper: char) -> (r: bool)
    ensures
        r == letter_eq(a, lower, upper),
{
    a == lower || a == upper
}

/// Executable twin of `supported_extension_seq`.
fn supported_extension_exec(e: &Vec<char>) -> (r: bool)
    ensures
        r == supported_extension_seq(e@),
{
    if e.len() == 3 {
        (letter_eq_exec(e[0], 'p', 'P') && letter_eq_exec(e[1], 'd', 'D') && letter_eq_exec(
            e[2],
            'f',
            'F',
        )) || (letter_eq_exec(e[0], 'd', 'D') && letter_eq_exec(e[1], 'o', 'O') && letter_eq_exec(
            e[2],
            'c',
            'C',
        )) || (letter_eq_exec(e[0], 'p', 'P') && letter_eq_exec(e[1], 'p', 'P') && letter_eq_exec(
            e[2],
            't',
            'T',
        ))
    } else if e.len() == 4 {
        (letter_eq_exec(e[0], 'x', 'X') && letter_eq_exec(e[1], 'l', 'L') && letter_eq_exec(
            e[2],
            's',
            'S',
        ) && letter_eq_exec(e[3], 'x', 'X')) || (letter_eq_exec(e[0], 'd', 'D') && letter_eq_exec(
            e[1],
            'o',
            'O',
        ) && letter_eq_exec(e[2], 'c', 'C') && letter_eq_exec(e[3], 'x', 'X')) || (letter_eq_exec(
            e[0],
            'p',
            'P',
        ) && letter_eq_exec(e[1], 'p', 'P') && letter_eq_exec(e[2], 't', 'T') && letter_eq_exec(
            e[3],
            'x',
            'X',
        ))
    } else {
        false
    }
}

/// Whether the path names one of the document types the converter accepts:
/// its file name's extension is pdf, xlsx, doc, docx, ppt or pptx, in any
/// letter case.
pub fn is_supported_file_type(path: &str) -> (r: bool)
    ensures
        r == supported_file_type(path@),
{
    let n = path.unicode_len();
    let name_start: usize = match last_index_of(path, '/') {
        Option::Some(p) => p + 1,
        Option::None => 0,
    };
    let name = path.substring_char(name_start, n);
    proof {
        assert(name@ =~= file_name_of(path@));
    }
    let m = name.unicode_len();
    match last_index_of(name, '.') {
        Option::None => false,
        Option::Some(p) => {
            if p == 0 {
                false
            } else {
                let ext = chars_of(name.substring_char(p + 1, m));
                proof {
                    assert(ext@ =~= file_name_of(path@).skip(p as int + 1));
                }
                supported_extension_exec(&ext)
            }
        },
    }
}

} // verus!
