//! Prefix extraction: emitting the leading `n` lines or bytes of a source,
//! or all but the trailing `n` when the requested count is negative.
//!
//! A line is the bytes up to and including a terminating `\n` (byte 10); a
//! trailing run of bytes without a terminator still counts as a line.

use vstd::prelude::*;

verus! {

/// Length of the first line of `s`: up to and including the first `\n`, or
/// all of `s` when it has none.
pub open spec fn first_line_len(s: Seq<u8>) -> nat
    decreases s.len(),
{
    if s.len() == 0 {
        0
    } else if s[0] == 10u8 {
        1
    } else {
        (1 + first_line_len(s.skip(1))) as nat
    }
}

/// Number of lines of `s`.
pub open spec fn total_lines(s: Seq<u8>) -> nat
    decreases s.len(),
    via total_lines_decreases
{
    if s.len() == 0 {
        0
    } else {
        (1 + total_lines(s.skip(first_line_len(s) as int))) as nat
    }
}

#[via_fn]
proof fn total_lines_decreases(s: Seq<u8>) {
    if s.len() > 0 {
        lemma_first_line_len_bounds(s);
    }
}

/// The first `n` lines of `s`, each with its terminator; all of `s` when it
/// has no more than `n` lines.
pub open spec fn line_prefix(s: Seq<u8>, n: nat) -> Seq<u8>
    decreases n,
{
    if n == 0 || s.len() == 0 {
        Seq::empty()
    } else {
        s.take(first_line_len(s) as int) + line_prefix(
            s.skip(first_line_len(s) as int),
            (n - 1) as nat,
        )
    }
}

/// The first `n` bytes of `s`; all of `s` when it is shorter.
pub open spec fn byte_prefix(s: Seq<u8>, n: nat) -> Seq<u8> {
    if n <= s.len() {
        s.take(n as int)
    } else {
        s
    }
}

/// The count a signed magnitude resolves to against a total: the magnitude
/// itself when non-negative, else all units but the trailing `|magnitude|`,
/// never below zero.
pub open spec fn resolved_count(magnitude: int, total: nat) -> nat {
    if magnitude >= 0 {
        magnitude as nat
    } else if total + magnitude >= 0 {
        (total + magnitude) as nat
    } else {
        0
    }
}

/// What line-mode extraction emits from a source `s` whose measured line
/// total is `total`.
pub open spec fn line_extraction(s: Seq<u8>, magnitude: int, total: nat) -> Seq<u8> {
    line_prefix(s, resolved_count(magnitude, total))
}

/// What byte-mode extraction emits from a source `s` whose measured byte
/// size is `size`.
pub open spec fn byte_extraction(s: Seq<u8>, magnitude: int, size: nat) -> Seq<u8> {
    byte_prefix(s, resolved_count(magnitude, size))
}

/// A non-empty source's first line is between one byte and all of it.
proof fn lemma_first_line_len_bounds(s: Seq<u8>)
    requires
        s.len() > 0,
    ensures
        1 <= first_line_len(s) <= s.len(),
    decreases s.len(),
{
    if s[0] == 10u8 {
    } else if s.len() == 1 {
        assert(s.skip(1).len() == 0);
        assert(first_line_len(s.skip(1)) == 0);
    } else {
        lemma_first_line_len_bounds(s.skip(1));
    }
}

/// Characterises `first_line_len` by position: if no `\n` occurs before
/// `d`, and `d` is the end of `s` or holds a `\n`, the first line ends there.
proof fn lemma_first_line_at(s: Seq<u8>, d: int)
    requires
        0 <= d <= s.len(),
        forall|j: int| 0 <= j < d ==> s[j] != 10u8,
        d == s.len() || s[d] == 10u8,
    ensures
        first_line_len(s) == if d < s.len() {
            d + 1
        } else {
            d
        },
    decreases d,
{
    if d == 0 {
    } else {
        lemma_first_line_at(s.skip(1), d - 1);
    }
}

/// A source has no more lines than bytes.
proof fn lemma_total_lines_le_len(s: Seq<u8>)
    ensures
        total_lines(s) <= s.len(),
    decreases s.len(),
{
    if s.len() > 0 {
        lemma_first_line_len_bounds(s);
        lemma_total_lines_le_len(s.skip(first_line_len(s) as int));
    }
}

/// Asking for at least as many lines as a source has yields the whole source.
pub proof fn lemma_line_prefix_complete(s: Seq<u8>, n: nat)
    requires
        n >= total_lines(s),
    ensures
        line_prefix(s, n) == s,
    decreases s.len(),
{
    if s.len() == 0 {
        assert(line_prefix(s, n) =~= s);
    } else {
        let f = first_line_len(s) as int;
        lemma_first_line_len_bounds(s);
        lemma_line_prefix_complete(s.skip(f), (n - 1) as nat);
        assert(s.take(f) + s.skip(f) =~= s);
    }
}

/// The first `n` lines of a source are exactly `min(n, total)` lines.
pub proof fn lemma_line_prefix_count(s: Seq<u8>, n: nat)
    ensures
        total_lines(line_prefix(s, n)) == if n <= total_lines(s) {
            n
        } else {
            total_lines(s)
        },
    decreases n,
{
    if n == 0 || s.len() == 0 {
    } else {
        let f = first_line_len(s) as int;
        lemma_first_line_len_bounds(s);
        let rest = line_prefix(s.skip(f), (n - 1) as nat);
        let p = s.take(f) + rest;
        lemma_line_prefix_count(s.skip(f), (n - 1) as nat);
        assert(forall|j: int| 0 <= j < f - 1 ==> s.take(f)[j] == s[j]);
        lemma_first_line_chars(s);
        assert(forall|j: int| 0 <= j < f - 1 ==> p[j] != 10u8);
        if s[f - 1] == 10u8 {
            lemma_first_line_at(p, f - 1);
            assert(p.skip(f) =~= rest);
            assert(total_lines(p) == 1 + total_lines(rest));
        } else {
            assert(f == s.len());
            assert(s.take(f) =~= s);
            assert(s.skip(f) =~= Seq::<u8>::empty());
            assert(rest =~= Seq::<u8>::empty());
            assert(p =~= s);
            lemma_first_line_at(p, f);
            assert(p.skip(f) =~= Seq::<u8>::empty());
            assert(total_lines(p) == 1);
        }
    }
}

/// Up to its end, the first line of a source holds no `\n`, and it ends at
/// the source's first `\n` if there is one.
proof fn lemma_first_line_chars(s: Seq<u8>)
    requires
        s.len() > 0,
    ensures
        forall|j: int| 0 <= j < first_line_len(s) - 1 ==> s[j] != 10u8,
        s[first_line_len(s) as int - 1] == 10u8 || first_line_len(s) == s.len(),
    decreases s.len(),
{
    lemma_first_line_len_bounds(s);
    if s[0] != 10u8 && s.len() > 1 {
        lemma_first_line_chars(s.skip(1));
        assert(forall|j: int| 1 <= j < first_line_len(s) - 1 ==> s[j] == s.skip(1)[j - 1]);
    }
}

/// The first `n` lines of a source are a literal prefix of it.
pub proof fn lemma_line_prefix_is_prefix(s: Seq<u8>, n: nat)
    ensures
        line_prefix(s, n).len() <= s.len(),
        line_prefix(s, n) == s.take(line_prefix(s, n).len() as int),
    decreases n,
{
    if n == 0 || s.len() == 0 {
        assert(line_prefix(s, n) =~= s.take(0));
    } else {
        let f = first_line_len(s) as int;
        lemma_first_line_len_bounds(s);
        let rest = line_prefix(s.skip(f), (n - 1) as nat);
        lemma_line_prefix_is_prefix(s.skip(f), (n - 1) as nat);
        assert(s.take(f) + s.skip(f).take(rest.len() as int) =~= s.take(f + rest.len()));
        assert(line_prefix(s, n) =~= s.take(f + rest.len()));
    }
}

/// Counts the lines of a source, a trailing unterminated run included.
pub fn count_total_lines(data: &Vec<u8>) -> (n: usize)
    ensures
        n as nat == total_lines(data@),
{
    let ghost s = data@;
    proof {
        assert(s.skip(0) =~= s);
    }
    let mut pos: usize = 0;
    let mut k: usize = 0;
    while pos < data.len()
        invariant
            pos <= data.len(),
            k <= pos,
            s == data@,
            total_lines(s) == k + total_lines(s.skip(pos as int)),
        decreases data.len() - pos,
    {
        let start = pos;
        while pos < data.len() && data[pos] != 10u8
            invariant
                start <= pos <= data.len(),
                s == data@,
                forall|j: int| start <= j < pos ==> s[j] != 10u8,
            decreases data.len() - pos,
        {
            pos = pos + 1;
        }
        proof {
            let t = s.skip(start as int);
            let d = pos - start as int;
            assert(forall|j: int| 0 <= j < d ==> t[j] == s[start + j]);
            lemma_first_line_at(t, d);
            let f = first_line_len(t) as int;
            assert(t.skip(f) =~= s.skip(start + f));
        }
        if pos < data.len() {
            pos = pos + 1;
        }
        k = k + 1;
    }
    proof {
        assert(s.skip(pos as int) =~= Seq::<u8>::empty());
    }
    k
}

/// Copies the first `n` lines of a source, all of it when it has fewer.
pub fn take_line_prefix(data: &Vec<u8>, n: usize) -> (out: Vec<u8>)
    ensures
        out@ == line_prefix(data@, n as nat),
{
    let ghost s = data@;
    proof {
        assert(s.skip(0) =~= s);
        assert(s.take(0) + line_prefix(s, n as nat) =~= line_prefix(s, n as nat));
    }
    let mut pos: usize = 0;
    let mut k: usize = 0;
    while k < n && pos < data.len()
        invariant
            pos <= data.len(),
            k <= n,
            s == data@,
            line_prefix(s, n as nat) == s.take(pos as int) + line_prefix(
                s.skip(pos as int),
                (n - k) as nat,
            ),
        decreases data.len() - pos,
    {
        let start = pos;
        while pos < data.len() && data[pos] != 10u8
            invariant
                start <= pos <= data.len(),
                s == data@,
                forall|j: int| start <= j < pos ==> s[j] != 10u8,
            decreases data.len() - pos,
        {
            pos = pos + 1;
        }
        proof {
            let t = s.skip(start as int);
            let d = pos - start as int;
            assert(forall|j: int| 0 <= j < d ==> t[j] == s[start + j]);
            lemma_first_line_at(t, d);
            let f = first_line_len(t) as int;
            assert(t.skip(f) =~= s.skip(start + f));
            assert(s.take(start as int) + t.take(f) =~= s.take(start + f));
        }
        if pos < data.len() {
            pos = pos + 1;
        }
        k = k + 1;
    }
    proof {
        if k == n {
            assert(line_prefix(s.skip(pos as int), 0) =~= Seq::<u8>::empty());
        } else {
            assert(s.skip(pos as int) =~= Seq::<u8>::empty());
            assert(line_prefix(s.skip(pos as int), (n - k) as nat) =~= Seq::<u8>::empty());
        }
        assert(line_prefix(s, n as nat) =~= s.take(pos as int));
    }
    let pref = vstd::slice::slice_subrange(data.as_slice(), 0, pos);
    vstd::slice::slice_to_vec(pref)
}

/// Copies the first `n` bytes of a source, all of it when it is shorter.
pub fn take_byte_prefix(data: &Vec<u8>, n: usize) -> (out: Vec<u8>)
    ensures
        out@ == byte_prefix(data@, n as nat),
{
    let m = if n <= data.len() {
        n
    } else {
        data.len()
    };
    proof {
        if n > data.len() {
            assert(data@.subrange(0, data@.len() as int) =~= data@);
        }
    }
    let pref = vstd::slice::slice_subrange(data.as_slice(), 0, m);
    vstd::slice::slice_to_vec(pref)
}

/// Line-mode extraction: emits the first `magnitude` lines, or, when
/// `magnitude` is negative, all lines but the trailing `|magnitude|` of the
/// measured total `total`.
pub fn extract_lines(data: &Vec<u8>, magnitude: i128, total: usize) -> (out: Vec<u8>)
    ensures
        out@ == line_extraction(data@, magnitude as int, total as nat),
{
    let n: usize = if magnitude >= 0 {
        if magnitude >= data.len() as i128 {
            proof {
                lemma_total_lines_le_len(data@);
                lemma_line_prefix_complete(data@, magnitude as nat);
                lemma_line_prefix_complete(data@, data@.len());
            }
            data.len()
        } else {
            magnitude as usize
        }
    } else {
        let t: i128 = total as i128 + magnitude;
        if t <= 0 {
            0
        } else if t >= data.len() as i128 {
            proof {
                lemma_total_lines_le_len(data@);
                lemma_line_prefix_complete(data@, t as nat);
                lemma_line_prefix_complete(data@, data@.len());
            }
            data.len()
        } else {
            t as usize
        }
    };
    take_line_prefix(data, n)
}

/// Byte-mode extraction: emits the first `magnitude` bytes, or, when
/// `magnitude` is negative, all bytes but the trailing `|magnitude|` of the
/// measured size `size`.
pub fn extract_bytes(data: &Vec<u8>, magnitude: i128, size: usize) -> (out: Vec<u8>)
    ensures
        out@ == byte_extraction(data@, magnitude as int, size as nat),
{
    let n: usize = if magnitude >= 0 {
        if magnitude >= data.len() as i128 {
            data.len()
        } else {
            magnitude as usize
        }
    } else {
        let t: i128 = size as i128 + magnitude;
        if t <= 0 {
            0
        } else if t >= data.len() as i128 {
            data.len()
        } else {
            t as usize
        }
    };
    take_byte_prefix(data, n)
}

/// Law: with a negative line count `-m` and `m` no greater than the line
/// total, extraction emits exactly `total - m` lines, and they are exactly
/// the leading bytes of the source.
pub proof fn lemma_drops_trailing_lines(s: Seq<u8>, m: int)
    requires
        0 < m <= total_lines(s),
    ensures
        line_extraction(s, -m, total_lines(s)) == line_prefix(
            s,
            (total_lines(s) - m) as nat,
        ),
        total_lines(line_extraction(s, -m, total_lines(s))) == total_lines(s) - m,
        line_extraction(s, -m, total_lines(s)) == s.take(
            line_extraction(s, -m, total_lines(s)).len() as int,
        ),
{
    let n = (total_lines(s) - m) as nat;
    lemma_line_prefix_count(s, n);
    lemma_line_prefix_is_prefix(s, n);
}

/// Law: with a negative line count `-m` and `m` greater than the line
/// total, extraction emits nothing.
pub proof fn lemma_drops_all_lines(s: Seq<u8>, m: int)
    requires
        m > total_lines(s),
    ensures
        line_extraction(s, -m, total_lines(s)) == Seq::<u8>::empty(),
{
    assert(resolved_count(-m, total_lines(s)) == 0);
}

} // verus!
