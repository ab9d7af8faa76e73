//! Choosing which reported folders to remove: reading the chosen indices
//! from a line of text, dropping repeats, and checking them all before any
//! folder is touched.

use std::collections::HashSet;

use vstd::prelude::*;

verus! {

/// Why a selection cannot be acted on.
#[derive(Debug, Clone, Copy, PartialEq, Eq, Structural)]
pub enum SelectionError {
    /// A word of the line is not an unsigned number that fits in `usize`.
    NotANumber,
    /// An index names no reported folder.
    OutOfRange(usize),
}

/// The white space characters: the code points with the Unicode
/// `White_Space` property.
pub open spec fn is_white(c: char) -> bool {
    let u = c as u32;
    ||| 0x09 <= u <= 0x0d
    ||| u == 0x20
    ||| u == 0x85
    ||| u == 0xa0
    ||| u == 0x1680
    ||| 0x2000 <= u <= 0x200a
    ||| u == 0x2028
    ||| u == 0x2029
    ||| u == 0x202f
    ||| u == 0x205f
    ||| u == 0x3000
}

/// The words of `s`: its longest runs of characters that are not white
/// space, in order. White space around them and between them is dropped.
pub open spec fn words(s: Seq<char>) -> Seq<Seq<char>>
    decreases s.len(),
{
    if s.len() == 0 {
        Seq::empty()
    } else {
        let r = words(s.drop_last());
        let c = s.last();
        if is_white(c) {
            r
        } else if s.len() > 1 && !is_white(s[s.len() - 2]) {
            r.update(r.len() - 1, r.last().push(c))
        } else {
            r.push(seq![c])
        }
    }
}

pub open spec fn is_digit(c: char) -> bool {
    '0' <= c <= '9'
}

/// The number that the decimal digits `t` spell.
pub open spec fn digits_value(t: Seq<char>) -> nat
    decreases t.len(),
{
    if t.len() == 0 {
        0
    } else {
        10 * digits_value(t.drop_last()) + (t.last() as nat - '0' as nat) as nat
    }
}

/// The unsigned number a token spells: an optional `+`, then one or more
/// decimal digits, of a value that fits in `usize`.
pub open spec fn token_value(t: Seq<char>) -> Option<usize> {
    let body = token_digits(t);
    if body.len() > 0 && all_digits(body) && digits_value(body) <= usize::MAX {
        Some(digits_value(body) as usize)
    } else {
        None
    }
}

/// A token without its leading `+`, if it has one.
pub open spec fn token_digits(t: Seq<char>) -> Seq<char> {
    if t.len() > 0 && t[0] == '+' {
        t.skip(1)
    } else {
        t
    }
}

pub open spec fn all_digits(s: Seq<char>) -> bool {
    forall|i: int| 0 <= i < s.len() ==> is_digit(#[trigger] s[i])
}

/// The indices a line of text names, when every word of it is a number.
pub open spec fn parse_spec(s: Seq<char>) -> Option<Seq<usize>> {
    let toks = words(s);
    if forall|k: int| 0 <= k < toks.len() ==> #[trigger] token_value(toks[k]) is Some {
        Some(toks.map_values(|t: Seq<char>| token_value(t)->Some_0))
    } else {
        None
    }
}

fn white_char(c: char) -> (r: bool)
    ensures
        r == is_white(c),
{
    let u = c as u32;
    (0x09 <= u && u <= 0x0d) || u == 0x20 || u == 0x85 || u == 0xa0 || u == 0x1680 || (0x2000 <= u
        && u <= 0x200a) || u == 0x2028 || u == 0x2029 || u == 0x202f || u == 0x205f || u == 0x3000
}

/// The number token `t` spells, if it is one.
fn parse_token(t: &str) -> (r: Option<usize>)
    ensures
        r == token_value(t@),
{
    let n = t.unicode_len();
    let mut i: usize = 0;
    if n > 0 && t.get_char(0) == '+' {
        i = 1;
    }
    let ghost body = token_digits(t@);
    let ghost start = i as int;
    assert(body =~= t@.skip(start));
    if i >= n {
        return None;
    }
    let mut value: usize = 0;
    let mut big = false;
    while i < n
        invariant
            n == t@.len(),
            0 <= start <= i <= n,
            body == t@.skip(start),
            body == token_digits(t@),
            forall|k: int| start <= k < i ==> is_digit(#[trigger] t@[k]),
            big <==> digits_value(t@.subrange(start, i as int)) > usize::MAX,
            !big ==> value == digits_value(t@.subrange(start, i as int)),
        decreases n - i,
    {
        let c = t.get_char(i);
        if !('0' <= c && c <= '9') {
            assert(body[i - start] == t@[i as int]);
            assert(!is_digit(body[i - start]));
            assert(!all_digits(body));
            return None;
        }
        let d = (c as u32 - '0' as u32) as usize;
        let ghost prev = t@.subrange(start, i as int);
        assert(t@.subrange(start, i + 1).drop_last() =~= prev);
        assert(digits_value(t@.subrange(start, i + 1)) == 10 * digits_value(prev) + d);
        if !big {
            if value > (usize::MAX - d) / 10 {
                big = true;
            } else {
                value = value * 10 + d;
            }
        }
        i = i + 1;
    }
    assert(t@.subrange(start, n as int) =~= body);
    if big {
        None
    } else {
        Some(value)
    }
}

/// The words of `s` among its first `i` characters that are complete: all
/// of them when character `i - 1` is white space, else all but the last.
pub open spec fn done_words(s: Seq<char>, i: int) -> Seq<Seq<char>> {
    if i > 0 && !is_white(s[i - 1]) {
        words(s.take(i)).drop_last()
    } else {
        words(s.take(i))
    }
}

pub open spec fn all_numbers(ws: Seq<Seq<char>>) -> bool {
    forall|k: int| 0 <= k < ws.len() ==> #[trigger] token_value(ws[k]) is Some
}

pub open spec fn numbers_of(ws: Seq<Seq<char>>) -> Seq<usize> {
    ws.map_values(|t: Seq<char>| token_value(t)->Some_0)
}

proof fn lemma_all_numbers_push(ws: Seq<Seq<char>>, t: Seq<char>)
    ensures
        all_numbers(ws.push(t)) == (all_numbers(ws) && token_value(t) is Some),
        numbers_of(ws.push(t)) =~= numbers_of(ws).push(token_value(t)->Some_0),
{
    let w2 = ws.push(t);
    if all_numbers(ws) && token_value(t) is Some {
        assert forall|k: int| 0 <= k < w2.len() implies #[trigger] token_value(w2[k]) is Some by {
            if k < ws.len() {
                assert(w2[k] == ws[k]);
            }
        }
    }
    if all_numbers(w2) {
        assert forall|k: int| 0 <= k < ws.len() implies #[trigger] token_value(ws[k]) is Some by {
            assert(w2[k] == ws[k]);
        }
        assert(w2[ws.len() as int] == t);
    }
}

/// Reads the indices named by a line as typed: the words of the line,
/// separated by runs of white space, each an unsigned number. Fails when a
/// word is not a number; a line of white space alone names no index.
pub fn parse_selection(line: &str) -> (r: Result<Vec<usize>, SelectionError>)
    ensures
        match parse_spec(line@) {
            Some(v) => r is Ok && r->Ok_0@ == v,
            None => r == Err::<Vec<usize>, SelectionError>(SelectionError::NotANumber),
        },
{
    let ghost s = line@;
    let n = line.unicode_len();
    let mut out: Vec<usize> = Vec::new();
    let mut ok = true;
    let mut in_word = false;
    let mut start: usize = 0;
    let mut i: usize = 0;
    assert(s.take(0) =~= Seq::<char>::empty());
    while i < n
        invariant
            n == s.len(),
            s == line@,
            start <= i <= n,
            in_word == (i > 0 && !is_white(s[i - 1])),
            in_word ==> words(s.take(i as int)).len() >= 1 && words(s.take(i as int)).last()
                == s.subrange(start as int, i as int),
            ok == all_numbers(done_words(s, i as int)),
            ok ==> out@ == numbers_of(done_words(s, i as int)),
        decreases n - i,
    {
        let ghost ws = words(s.take(i as int));
        let ghost done = done_words(s, i as int);
        let c = line.get_char(i);
        proof {
            assert(s.take(i + 1).drop_last() =~= s.take(i as int));
            assert(s.take(i + 1).last() == c);
            if i > 0 {
                assert(s.take(i + 1)[i - 1] == s[i - 1]);
            }
        }
        if white_char(c) {
            assert(words(s.take(i + 1)) == ws);
            if in_word {
                let tok = parse_token(line.substring_char(start, i));
                proof {
                    assert(done == ws.drop_last());
                    assert(ws =~= done.push(ws.last()));
                    lemma_all_numbers_push(done, ws.last());
                }
                match tok {
                    Some(v) => {
                        if ok {
                            out.push(v);
                        }
                    },
                    None => {
                        ok = false;
                    },
                }
                in_word = false;
            }
        } else {
            if in_word {
                proof {
                    let w2 = words(s.take(i + 1));
                    assert(w2 == ws.update(ws.len() - 1, ws.last().push(c)));
                    assert(w2.drop_last() =~= ws.drop_last());
                    assert(s.subrange(start as int, i + 1) =~= s.subrange(start as int, i as int).push(c));
                }
            } else {
                proof {
                    let w2 = words(s.take(i + 1));
                    assert(w2 == ws.push(seq![c]));
                    assert(w2.drop_last() =~= ws);
                    assert(s.subrange(i as int, i + 1) =~= seq![c]);
                }
                start = i;
                in_word = true;
            }
        }
        i = i + 1;
    }
    assert(s.take(n as int) =~= s);
    if in_word {
        let ghost ws = words(s);
        let tok = parse_token(line.substring_char(start, n));
        proof {
            assert(ws =~= done_words(s, n as int).push(ws.last()));
            lemma_all_numbers_push(done_words(s, n as int), ws.last());
        }
        match tok {
            Some(v) => {
                if ok {
                    out.push(v);
                }
            },
            None => {
                ok = false;
            },
        }
    }
    if ok {
        Ok(out)
    } else {
        Err(SelectionError::NotANumber)
    }
}

/// The elements of `v`, each once, in the order they first appear.
pub fn filter_same(v: Vec<usize>) -> (r: Vec<usize>)
    ensures
        r@.no_duplicates(),
        forall|x: usize| r@.contains(x) <==> v@.contains(x),
{
    broadcast use vstd::std_specs::hash::group_hash_axioms;

    let mut seen: HashSet<usize> = HashSet::new();
    let mut r: Vec<usize> = Vec::new();
    let mut i: usize = 0;
    while i < v.len()
        invariant
            i <= v@.len(),
            r@.no_duplicates(),
            forall|x: usize| r@.contains(x) <==> seen@.contains(x),
            forall|x: usize| seen@.contains(x) <==> v@.take(i as int).contains(x),
        decreases v@.len() - i,
    {
        let x = v[i];
        let ghost old_seen = seen@;
        let ghost old_r = r@;
        let fresh = seen.insert(x);
        assert(seen@ == old_seen.insert(x));
        assert(fresh == !old_seen.contains(x));
        if fresh {
            r.push(x);
        }
        proof {
            let pre = v@.take(i as int);
            let post = v@.take(i + 1);
            assert(post =~= pre.push(x));
            assert forall|y: usize| post.contains(y) <==> seen@.contains(y) by {
                if pre.contains(y) {
                    let j = choose|j: int| 0 <= j < pre.len() && pre[j] == y;
                    assert(post[j] == y);
                }
                if y == x {
                    assert(post[i as int] == y);
                }
                if post.contains(y) {
                    let j = choose|j: int| 0 <= j < post.len() && post[j] == y;
                    if j < i {
                        assert(pre[j] == y);
                    }
                }
            }
            assert forall|y: usize| r@.contains(y) <==> seen@.contains(y) by {
                if fresh {
                    assert(r@ == old_r.push(x));
                    if y == x {
                        assert(r@[r@.len() - 1] == x);
                    }
                    if old_r.contains(y) {
                        let j = choose|j: int| 0 <= j < old_r.len() && old_r[j] == y;
                        assert(r@[j] == y);
                    }
                    if r@.contains(y) {
                        let j = choose|j: int| 0 <= j < r@.len() && r@[j] == y;
                        if j < old_r.len() {
                            assert(old_r[j] == y);
                        }
                    }
                }
            }
        }
        i = i + 1;
    }
    assert(v@.take(i as int) =~= v@);
    r
}

/// The index of the first element of `sel` that is `count` or more, if any.
pub open spec fn first_out_of_range(sel: Seq<usize>, count: usize) -> Option<usize>
    decreases sel.len(),
{
    if sel.len() == 0 {
        None
    } else if sel[0] >= count {
        Some(sel[0])
    } else {
        first_out_of_range(sel.skip(1), count)
    }
}

/// Checks a selection against the number of reported folders before any is
/// removed: when every index is below `count`, returns the indices without
/// repeats, to be removed in that order; else names the first index that is
/// out of range, and nothing is to be removed.
pub fn plan_removal(count: usize, selection: Vec<usize>) -> (r: Result<Vec<usize>, SelectionError>)
    ensures
        r is Ok <==> forall|k: int| 0 <= k < selection@.len() ==> selection@[k] < count,
        r is Ok ==> {
            &&& r->Ok_0@.no_duplicates()
            &&& forall|x: usize| r->Ok_0@.contains(x) <==> selection@.contains(x)
            &&& forall|k: int| 0 <= k < r->Ok_0@.len() ==> r->Ok_0@[k] < count
        },
        r is Err ==> r == Err::<Vec<usize>, SelectionError>(
            SelectionError::OutOfRange(first_out_of_range(selection@, count)->Some_0),
        ),
{
    let mut i: usize = 0;
    assert(selection@.skip(0) =~= selection@);
    while i < selection.len()
        invariant
            i <= selection@.len(),
            forall|k: int| 0 <= k < i ==> selection@[k] < count,
            first_out_of_range(selection@, count) == first_out_of_range(
                selection@.skip(i as int),
                count,
            ),
        decreases selection@.len() - i,
    {
        let x = selection[i];
        assert(selection@.skip(i as int)[0] == x);
        if x >= count {
            return Err(SelectionError::OutOfRange(x));
        }
        assert(selection@.skip(i as int).skip(1) =~= selection@.skip(i + 1));
        i = i + 1;
    }
    let plan = filter_same(selection);
    assert forall|k: int| 0 <= k < plan@.len() implies plan@[k] < count by {
        assert(plan@.contains(plan@[k]));
    }
    Ok(plan)
}

} // verus!
