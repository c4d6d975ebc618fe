//! The physical-core probe's parser.
//!
//! The host's processor description arrives as `key: value` lines grouped
//! into blocks separated by blank lines. The probe counts the distinct
//! `(physical id, core id)` pairs those blocks describe; that count is the
//! number of physical cores, the usual choice for a pool size. Reading the
//! description from the system is input-output and stays outside; this module
//! verifies everything after it: field extraction, trimming, number parsing,
//! the block scan, and the de-duplicated count.

use vstd::prelude::*;

verus! {

/// The bytes that count as whitespace around a field value: space,
/// horizontal tab, line feed, vertical tab, form feed and carriage return.
pub open spec fn is_space(b: u8) -> bool {
    b == 32 || b == 9 || b == 10 || b == 11 || b == 12 || b == 13
}

/// An ASCII decimal digit.
pub open spec fn is_digit(b: u8) -> bool {
    48 <= b <= 57
}

/// `s` without its leading whitespace.
pub open spec fn trim_start(s: Seq<u8>) -> Seq<u8>
    decreases s.len(),
{
    if s.len() > 0 && is_space(s[0]) {
        trim_start(s.drop_first())
    } else {
        s
    }
}

/// `s` without its trailing whitespace.
pub open spec fn trim_end(s: Seq<u8>) -> Seq<u8>
    decreases s.len(),
{
    if s.len() > 0 && is_space(s.last()) {
        trim_end(s.drop_last())
    } else {
        s
    }
}

/// `s` without leading and trailing whitespace.
pub open spec fn trimmed(s: Seq<u8>) -> Seq<u8> {
    trim_end(trim_start(s))
}

/// The numeric value of a run of decimal digits.
pub open spec fn digits_value(s: Seq<u8>) -> int
    decreases s.len(),
{
    if s.len() == 0 {
        0
    } else {
        digits_value(s.drop_last()) * 10 + (s.last() - 48)
    }
}

/// The digits of a number: what remains after an optional leading plus sign.
pub open spec fn digits_part(s: Seq<u8>) -> Seq<u8> {
    if s.len() > 0 && s[0] == 43 {
        s.drop_first()
    } else {
        s
    }
}

/// What parsing an unsigned 32-bit number accepts: an optional leading plus
/// sign, then at least one decimal digit and nothing else, with a value that
/// fits in the type.
pub open spec fn parse_u32(s: Seq<u8>) -> Option<u32> {
    let d = digits_part(s);
    if d.len() > 0 && (forall|i: int| 0 <= i < d.len() ==> is_digit(#[trigger] d[i]))
        && digits_value(d) <= u32::MAX {
        Some(digits_value(d) as u32)
    } else {
        None
    }
}

/// Whether `p` is a prefix of `s`.
pub open spec fn has_prefix(s: Seq<u8>, p: Seq<u8>) -> bool {
    p.len() <= s.len() && s.take(p.len() as int) == p
}

/// The bytes of the key `physical id`.
pub open spec fn physical_id_key() -> Seq<u8> {
    seq![112u8, 104u8, 121u8, 115u8, 105u8, 99u8, 97u8, 108u8, 32u8, 105u8, 100u8]
}

/// The bytes of the key `core id`.
pub open spec fn core_id_key() -> Seq<u8> {
    seq![99u8, 111u8, 114u8, 101u8, 32u8, 105u8, 100u8]
}

/// The first index at which `b` occurs in `s`, or `s.len()` when it does not.
pub open spec fn index_of(s: Seq<u8>, b: u8) -> int
    decreases s.len(),
{
    if s.len() == 0 {
        0
    } else if s[0] == b {
        0
    } else {
        1 + index_of(s.drop_first(), b)
    }
}

/// The second colon-separated piece of a line: what stands between the first
/// colon and the next colon or the line's end. A line without a colon has no
/// such piece.
pub open spec fn second_field(line: Seq<u8>) -> Option<Seq<u8>> {
    let c1 = index_of(line, 58);
    if c1 == line.len() {
        None
    } else {
        let rest = line.skip(c1 + 1);
        Some(rest.take(index_of(rest, 58)))
    }
}

/// The id a `key: value` line contributes: its second colon-separated piece,
/// trimmed and parsed. A line without a colon, or whose value does not parse,
/// contributes nothing.
pub open spec fn line_value(line: Seq<u8>) -> Option<u32> {
    match second_field(line) {
        Some(f) => parse_u32(trimmed(f)),
        None => None,
    }
}

/// Closes the current block: when both ids of the block are known, their pair
/// is recorded.
pub open spec fn flush(st: (Option<u32>, Option<u32>, Set<(u32, u32)>)) -> Set<(u32, u32)> {
    if st.0 is Some && st.1 is Some {
        st.2.insert((st.0.unwrap(), st.1.unwrap()))
    } else {
        st.2
    }
}

/// One line's effect on the scan state (the block's physical id so far, its
/// core id so far, and the pairs recorded): a blank line closes the block; a
/// `physical id` or `core id` line whose value parses replaces that id, and
/// last write wins within a block; every other line changes nothing.
pub open spec fn step_line(st: (Option<u32>, Option<u32>, Set<(u32, u32)>), line: Seq<u8>) -> (
    Option<u32>,
    Option<u32>,
    Set<(u32, u32)>,
) {
    if line.len() == 0 {
        (None::<u32>, None::<u32>, flush(st))
    } else if has_prefix(line, physical_id_key()) {
        match line_value(line) {
            Some(v) => (Some(v), st.1, st.2),
            None => st,
        }
    } else if has_prefix(line, core_id_key()) {
        match line_value(line) {
            Some(v) => (st.0, Some(v), st.2),
            None => st,
        }
    } else {
        st
    }
}

/// The scan state after all of `lines`, starting from an open, empty block.
pub open spec fn scan(lines: Seq<Seq<u8>>) -> (Option<u32>, Option<u32>, Set<(u32, u32)>)
    decreases lines.len(),
{
    if lines.len() == 0 {
        (None::<u32>, None::<u32>, Set::<(u32, u32)>::empty())
    } else {
        step_line(scan(lines.drop_last()), lines.last())
    }
}

/// The number of distinct `(physical id, core id)` pairs that the processor
/// blocks of `lines` describe, the last block closed by the input's end.
pub open spec fn spec_physical_cores(lines: Seq<Seq<u8>>) -> nat {
    flush(scan(lines)).len()
}

proof fn lemma_trim_start_skip(s: Seq<u8>, lo: int)
    requires
        0 <= lo <= s.len(),
        forall|k: int| 0 <= k < lo ==> is_space(#[trigger] s[k]),
        lo == s.len() || !is_space(s[lo]),
    ensures
        trim_start(s) == s.skip(lo),
    decreases lo,
{
    if lo == 0 {
        assert(s.skip(0) =~= s);
    } else {
        let t = s.drop_first();
        assert(forall|k: int| 0 <= k < lo - 1 ==> (#[trigger] t[k]) == s[k + 1]);
        lemma_trim_start_skip(t, lo - 1);
        assert(t.skip(lo - 1) =~= s.skip(lo));
    }
}

proof fn lemma_trim_end_take(s: Seq<u8>, hi: int)
    requires
        0 <= hi <= s.len(),
        forall|k: int| hi <= k < s.len() ==> is_space(#[trigger] s[k]),
        hi == 0 || !is_space(s[hi - 1]),
    ensures
        trim_end(s) == s.take(hi),
    decreases s.len(),
{
    if hi == s.len() {
        assert(s.take(hi) =~= s);
    } else {
        let t = s.drop_last();
        assert(forall|k: int| hi <= k < t.len() ==> (#[trigger] t[k]) == s[k]);
        lemma_trim_end_take(t, hi);
        assert(t.take(hi) =~= s.take(hi));
    }
}

/// Extending a run of digits can only grow its value.
proof fn lemma_digits_take_mono(d: Seq<u8>, a: int, b: int)
    requires
        0 <= a <= b <= d.len(),
        forall|k: int| a <= k < b ==> is_digit(#[trigger] d[k]),
        digits_value(d.take(a)) >= 0,
    ensures
        digits_value(d.take(b)) >= digits_value(d.take(a)),
    decreases b - a,
{
    if a < b {
        assert(d.take(a + 1).drop_last() =~= d.take(a));
        assert(d.take(a + 1).last() == d[a]);
        assert(digits_value(d.take(a + 1)) >= digits_value(d.take(a)));
        lemma_digits_take_mono(d, a + 1, b);
    }
}

proof fn lemma_index_of_at(s: Seq<u8>, b: u8, i: int)
    requires
        0 <= i <= s.len(),
        forall|k: int| 0 <= k < i ==> (#[trigger] s[k]) != b,
        i == s.len() || s[i] == b,
    ensures
        index_of(s, b) == i,
    decreases s.len(),
{
    if s.len() > 0 && s[0] != b {
        let t = s.drop_first();
        assert(forall|k: int| 0 <= k < i - 1 ==> (#[trigger] t[k]) == s[k + 1]);
        assert(i >= 1);
        if i < s.len() {
            assert(t[i - 1] == s[i]);
        }
        lemma_index_of_at(t, b, i - 1);
    }
}

fn space_byte(b: u8) -> (r: bool)
    ensures
        r == is_space(b),
{
    b == 32 || b == 9 || b == 10 || b == 11 || b == 12 || b == 13
}

fn copy_range(s: &Vec<u8>, from: usize, to: usize) -> (r: Vec<u8>)
    requires
        from <= to <= s@.len(),
    ensures
        r@ == s@.subrange(from as int, to as int),
{
    let mut r: Vec<u8> = Vec::new();
    proof {
        assert(r@ =~= s@.subrange(from as int, from as int));
    }
    let mut i = from;
    while i < to
        invariant
            from <= i <= to <= s@.len(),
            r@ == s@.subrange(from as int, i as int),
        decreases to - i,
    {
        let b = s[i];
        r.push(b);
        proof {
            assert(r@ =~= s@.subrange(from as int, i + 1 as int));
        }
        i += 1;
    }
    r
}

/// Strips leading and trailing whitespace.
fn trim_bytes(s: &Vec<u8>) -> (r: Vec<u8>)
    ensures
        r@ == trimmed(s@),
{
    let mut lo: usize = 0;
    while lo < s.len() && space_byte(s[lo])
        invariant
            lo <= s@.len(),
            forall|k: int| 0 <= k < lo ==> is_space(#[trigger] s@[k]),
        decreases s@.len() - lo,
    {
        lo += 1;
    }
    proof {
        lemma_trim_start_skip(s@, lo as int);
    }
    if lo == s.len() {
        let r: Vec<u8> = Vec::new();
        proof {
            assert(s@.skip(lo as int) =~= Seq::<u8>::empty());
            assert(r@ =~= trimmed(s@));
        }
        return r;
    }
    let mut hi: usize = s.len();
    while hi > lo && space_byte(s[hi - 1])
        invariant
            lo <= hi <= s@.len(),
            forall|k: int| hi <= k < s@.len() ==> is_space(#[trigger] s@[k]),
        decreases hi,
    {
        hi -= 1;
    }
    proof {
        let t = s@.skip(lo as int);
        assert(forall|k: int| 0 <= k < t.len() ==> (#[trigger] t[k]) == s@[k + lo]);
        if hi == lo {
            lemma_trim_end_take(t, 0);
        } else {
            assert(!is_space(t[hi - lo - 1]));
            lemma_trim_end_take(t, hi - lo);
        }
        assert(t.take(hi - lo) =~= s@.subrange(lo as int, hi as int));
    }
    copy_range(s, lo, hi)
}

/// Parses a trimmed byte run as an unsigned 32-bit number, exactly as
/// `parse_u32` describes.
fn parse_u32_bytes(s: &Vec<u8>) -> (r: Option<u32>)
    ensures
        r == parse_u32(s@),
{
    let start: usize = if s.len() > 0 && s[0] == 43 {
        1
    } else {
        0
    };
    let ghost d = digits_part(s@);
    proof {
        assert(d =~= s@.subrange(start as int, s@.len() as int));
    }
    if start == s.len() {
        return None;
    }
    let mut acc: u64 = 0;
    let mut i: usize = start;
    while i < s.len()
        invariant
            start <= i <= s@.len(),
            start < s@.len(),
            d == s@.subrange(start as int, s@.len() as int),
            d == digits_part(s@),
            forall|k: int| 0 <= k < i - start ==> is_digit(#[trigger] d[k]),
            acc == digits_value(d.take(i - start)),
            acc <= u32::MAX,
        decreases s@.len() - i,
    {
        let b = s[i];
        proof {
            assert(d[i - start] == b);
        }
        if !(48 <= b && b <= 57) {
            proof {
                assert(!is_digit(d[i - start]));
            }
            return None;
        }
        let acc2: u64 = acc * 10 + ((b - 48) as u64);
        proof {
            assert(d.take(i - start + 1).drop_last() =~= d.take(i - start));
            assert(d.take(i - start + 1).last() == d[i - start]);
            assert(acc2 == digits_value(d.take(i - start + 1)));
        }
        if acc2 > 0xFFFF_FFFF {
            proof {
                if forall|k: int| 0 <= k < d.len() ==> is_digit(#[trigger] d[k]) {
                    lemma_digits_take_mono(d, i - start + 1, d.len() as int);
                    assert(d.take(d.len() as int) =~= d);
                }
            }
            return None;
        }
        acc = acc2;
        i += 1;
    }
    proof {
        assert(d.take(d.len() as int) =~= d);
    }
    Some(acc as u32)
}

fn index_of_byte(s: &Vec<u8>, b: u8) -> (i: usize)
    ensures
        i == index_of(s@, b),
        i <= s@.len(),
{
    let mut i: usize = 0;
    while i < s.len()
        invariant
            i <= s@.len(),
            forall|k: int| 0 <= k < i ==> (#[trigger] s@[k]) != b,
        decreases s@.len() - i,
    {
        if s[i] == b {
            proof {
                lemma_index_of_at(s@, b, i as int);
            }
            return i;
        }
        i += 1;
    }
    proof {
        lemma_index_of_at(s@, b, s@.len() as int);
    }
    i
}

fn starts_with_bytes(s: &Vec<u8>, p: &Vec<u8>) -> (r: bool)
    ensures
        r == has_prefix(s@, p@),
{
    if p.len() > s.len() {
        return false;
    }
    let mut i: usize = 0;
    while i < p.len()
        invariant
            i <= p@.len() <= s@.len(),
            forall|k: int| 0 <= k < i ==> (#[trigger] s@[k]) == p@[k],
        decreases p@.len() - i,
    {
        if s[i] != p[i] {
            proof {
                assert(s@.take(p@.len() as int)[i as int] != p@[i as int]);
            }
            return false;
        }
        i += 1;
    }
    proof {
        assert(s@.take(p@.len() as int) =~= p@);
    }
    true
}

/// The id a `key: value` line contributes, exactly as `line_value` describes.
fn line_value_bytes(line: &Vec<u8>) -> (r: Option<u32>)
    ensures
        r == line_value(line@),
{
    let c1 = index_of_byte(line, 58);
    if c1 == line.len() {
        return None;
    }
    let rest = copy_range(line, c1 + 1, line.len());
    proof {
        assert(rest@ =~= line@.skip(c1 as int + 1));
    }
    let c2 = index_of_byte(&rest, 58);
    let field = copy_range(&rest, 0, c2);
    proof {
        assert(field@ =~= rest@.take(index_of(rest@, 58)));
    }
    let t = trim_bytes(&field);
    parse_u32_bytes(&t)
}

fn physical_id_key_bytes() -> (r: Vec<u8>)
    ensures
        r@ == physical_id_key(),
{
    let mut r: Vec<u8> = Vec::new();
    r.push(112);
    r.push(104);
    r.push(121);
    r.push(115);
    r.push(105);
    r.push(99);
    r.push(97);
    r.push(108);
    r.push(32);
    r.push(105);
    r.push(100);
    proof {
        assert(r@ =~= physical_id_key());
    }
    r
}

fn core_id_key_bytes() -> (r: Vec<u8>)
    ensures
        r@ == core_id_key(),
{
    let mut r: Vec<u8> = Vec::new();
    r.push(99);
    r.push(111);
    r.push(114);
    r.push(101);
    r.push(32);
    r.push(105);
    r.push(100);
    proof {
        assert(r@ =~= core_id_key());
    }
    r
}

/// Records the pair once: the recorded set gains it, and no duplicate enters
/// the backing vector.
fn insert_pair(pairs: &mut Vec<(u32, u32)>, p: u32, c: u32)
    requires
        old(pairs)@.no_duplicates(),
    ensures
        final(pairs)@.no_duplicates(),
        final(pairs)@.to_set() == old(pairs)@.to_set().insert((p, c)),
{
    let mut i: usize = 0;
    while i < pairs.len()
        invariant
            i <= pairs@.len(),
            pairs@ == old(pairs)@,
            old(pairs)@.no_duplicates(),
            forall|k: int| 0 <= k < i ==> (#[trigger] pairs@[k]) != (p, c),
        decreases pairs@.len() - i,
    {
        let q = pairs[i];
        if q.0 == p && q.1 == c {
            proof {
                assert(pairs@[i as int] == (p, c));
                assert(pairs@.contains((p, c)));
                assert(pairs@.to_set().insert((p, c)) =~= pairs@.to_set());
            }
            return ;
        }
        i += 1;
    }
    let ghost before = pairs@;
    proof {
        assert(!before.contains((p, c)));
        before.lemma_push_to_set_commute((p, c));
    }
    pairs.push((p, c));
    proof {
        assert(pairs@ == before.push((p, c)));
        assert forall|a: int, b: int|
            0 <= a < b < pairs@.len() implies pairs@[a] != pairs@[b] by {
            if b == pairs@.len() - 1 {
                assert(pairs@[a] == before[a]);
                assert(!before.contains((p, c)));
            }
        }
        assert(pairs@.to_set() =~= before.to_set().insert((p, c)));
    }
}

/// Counts the distinct `(physical id, core id)` pairs that the given
/// processor-description lines describe: `key: value` lines in blocks
/// separated by blank lines, a block contributing its pair once both ids
/// have been seen, closed by a blank line or by the input's end.
pub fn count_physical_cores(lines: &Vec<Vec<u8>>) -> (n: usize)
    ensures
        n == spec_physical_cores(lines.deep_view()),
{
    let pkey = physical_id_key_bytes();
    let ckey = core_id_key_bytes();
    let mut cur_p: Option<u32> = None;
    let mut cur_c: Option<u32> = None;
    let mut pairs: Vec<(u32, u32)> = Vec::new();
    let ghost lv = lines.deep_view();
    proof {
        assert(lv.take(0) =~= Seq::<Seq<u8>>::empty());
        assert(pairs@.to_set() =~= Set::<(u32, u32)>::empty());
    }
    let mut i: usize = 0;
    while i < lines.len()
        invariant
            i <= lines@.len(),
            lv == lines.deep_view(),
            lv.len() == lines@.len(),
            pkey@ == physical_id_key(),
            ckey@ == core_id_key(),
            pairs@.no_duplicates(),
            scan(lv.take(i as int)) == (cur_p, cur_c, pairs@.to_set()),
        decreases lines@.len() - i,
    {
        let line = &lines[i];
        let ghost st = scan(lv.take(i as int));
        proof {
            assert(lv[i as int] == lines@[i as int]@);
            assert(lv.take(i + 1 as int).drop_last() =~= lv.take(i as int));
            assert(lv.take(i + 1 as int).last() == lv[i as int]);
        }
        if line.len() == 0 {
            if cur_p.is_some() && cur_c.is_some() {
                let pv = cur_p.unwrap();
                let cv = cur_c.unwrap();
                insert_pair(&mut pairs, pv, cv);
            }
            cur_p = None;
            cur_c = None;
        } else if starts_with_bytes(line, &pkey) {
            match line_value_bytes(line) {
                Some(v) => {
                    cur_p = Some(v);
                },
                None => {},
            }
        } else if starts_with_bytes(line, &ckey) {
            match line_value_bytes(line) {
                Some(v) => {
                    cur_c = Some(v);
                },
                None => {},
            }
        }
        proof {
            assert(scan(lv.take(i + 1 as int)) == step_line(st, lv[i as int]));
        }
        i += 1;
    }
    proof {
        assert(lv.take(lines@.len() as int) =~= lv);
    }
    if cur_p.is_some() && cur_c.is_some() {
        let pv = cur_p.unwrap();
        let cv = cur_c.unwrap();
        insert_pair(&mut pairs, pv, cv);
    }
    proof {
        assert(pairs@.to_set() == flush(scan(lv)));
        pairs@.unique_seq_to_set();
    }
    pairs.len()
}

} // verus!
