//! Filename classification and construction.
//!
//! A log directory holds files named `<base>.log` (the primary file,
//! generation 0) and `<base>.<N>.log` (the numbered backups). A filename
//! is read by splitting on `.`: the first segment is the base name, the
//! second decides the generation. Filenames that begin with a dot are
//! ignored outright; every other shape is malformed and aborts the run.

use vstd::prelude::*;
use vstd::slice::slice_to_vec;
use crate::errors::Error;

verus! {

/// The byte `'.'`.
pub const DOT: u8 = 46;
/// The byte `'+'`, accepted as an optional sign before a generation number.
pub const PLUS: u8 = 43;
/// The byte `'0'`.
pub const DIGIT_ZERO: u8 = 48;
/// The byte `'9'`.
pub const DIGIT_NINE: u8 = 57;

/// The bytes of the token `log`.
pub open spec fn log_token() -> Seq<u8> {
    seq![108u8, 111u8, 103u8]
}

/// The bytes of the suffix `.log`.
pub open spec fn log_suffix() -> Seq<u8> {
    seq![DOT, 108u8, 111u8, 103u8]
}

/// What the classifier decides about one filename.
pub enum FileKind {
    /// Dotfile: no entry, no error.
    Ignored,
    /// A log file of group `base`, generation `number` (0 = primary).
    Entry { base: Seq<u8>, number: u8 },
    /// Not a recognized log filename; aborts the run.
    Malformed,
}

/// The index of the first `.` at or after `from`, or `name.len()` if none.
pub open spec fn seg_end(name: Seq<u8>, from: int) -> int
    decreases name.len() - from,
{
    if from < 0 || from >= name.len() {
        name.len() as int
    } else if name[from] == DOT {
        from
    } else {
        seg_end(name, from + 1)
    }
}

/// If the bytes from `from` up to `k` are dot-free and `name[k]` is a dot,
/// the first segment starting at `from` ends exactly at `k`.
proof fn lemma_seg_end_at(name: Seq<u8>, from: int, k: int)
    requires
        0 <= from <= k < name.len(),
        name[k] == DOT,
        forall|i: int| from <= i < k ==> name[i] != DOT,
    ensures
        seg_end(name, from) == k,
    decreases k - from,
{
    if from < k {
        lemma_seg_end_at(name, from + 1, k);
    }
}

/// If no byte from `from` to the end is a dot, the segment runs to the end.
proof fn lemma_seg_end_none(name: Seq<u8>, from: int)
    requires
        0 <= from <= name.len(),
        forall|i: int| from <= i < name.len() ==> name[i] != DOT,
    ensures
        seg_end(name, from) == name.len(),
    decreases name.len() - from,
{
    if from < name.len() {
        lemma_seg_end_none(name, from + 1);
    }
}

/// Is `b` a decimal digit?
pub open spec fn is_digit(b: u8) -> bool {
    DIGIT_ZERO <= b <= DIGIT_NINE
}

/// Are all bytes of `s` decimal digits?
pub open spec fn all_digits(s: Seq<u8>) -> bool {
    forall|i: int| 0 <= i < s.len() ==> is_digit(s[i])
}

/// The numeric value of a digit string (0 for the empty string).
pub open spec fn dec_value(s: Seq<u8>) -> int
    decreases s.len(),
{
    if s.len() == 0 {
        0
    } else {
        dec_value(s.drop_last()) * 10 + (s.last() - DIGIT_ZERO)
    }
}

/// A digit string's value is non-negative.
proof fn lemma_dec_value_nonneg(s: Seq<u8>)
    requires
        all_digits(s),
    ensures
        dec_value(s) >= 0,
    decreases s.len(),
{
    if s.len() > 0 {
        assert(all_digits(s.drop_last()));
        lemma_dec_value_nonneg(s.drop_last());
    }
}

/// Extending a digit string can only grow its value.
proof fn lemma_dec_value_prefix(s: Seq<u8>, k: int)
    requires
        all_digits(s),
        0 <= k <= s.len(),
    ensures
        dec_value(s) >= dec_value(s.subrange(0, k)),
    decreases s.len() - k,
{
    if k < s.len() {
        lemma_dec_value_prefix(s, k + 1);
        let t = s.subrange(0, k + 1);
        assert(t.drop_last() =~= s.subrange(0, k));
        assert(all_digits(s.subrange(0, k)));
        lemma_dec_value_nonneg(s.subrange(0, k));
    } else {
        assert(s.subrange(0, k) =~= s);
    }
}

/// The digits of a candidate generation number: one leading `+` sign is
/// tolerated, as the standard integer parser tolerates it.
pub open spec fn number_body(s: Seq<u8>) -> Seq<u8> {
    if s.len() > 0 && s[0] == PLUS {
        s.drop_first()
    } else {
        s
    }
}

/// Does `s` denote a generation number (a non-negative integer up to 255)?
pub open spec fn is_generation_number(s: Seq<u8>) -> bool {
    let d = number_body(s);
    d.len() > 0 && all_digits(d) && dec_value(d) <= 255
}

/// The generation number `s` denotes, when it denotes one.
pub open spec fn generation_number(s: Seq<u8>) -> u8 {
    dec_value(number_body(s)) as u8
}

/// The second dot-separated segment of `name`.
pub open spec fn second_segment(name: Seq<u8>) -> Seq<u8> {
    let d1 = seg_end(name, 0);
    name.subrange(d1 + 1, seg_end(name, d1 + 1))
}

/// How one filename classifies: dotfiles are ignored; otherwise the first
/// segment is the base name and the second segment must be `log`
/// (generation 0) or a generation number; everything else is malformed.
pub open spec fn classify_spec(name: Seq<u8>) -> FileKind {
    if name.len() > 0 && name[0] == DOT {
        FileKind::Ignored
    } else {
        let d1 = seg_end(name, 0);
        if d1 == name.len() {
            FileKind::Malformed
        } else {
            let seg2 = second_segment(name);
            if seg2 == log_token() {
                FileKind::Entry { base: name.subrange(0, d1), number: 0 }
            } else if is_generation_number(seg2) {
                FileKind::Entry { base: name.subrange(0, d1), number: generation_number(seg2) }
            } else {
                FileKind::Malformed
            }
        }
    }
}

/// Classifies one filename, exactly as `classify_spec` says: `Ok(None)`
/// for an ignored dotfile, `Ok(Some((base, number)))` for a log file, and
/// a `FilenameParse` error carrying the filename for anything else.
#[verifier::loop_isolation(false)]
pub fn parse_file_name(name: &[u8]) -> (r: Result<Option<(Vec<u8>, u8)>, Error>)
    ensures
        ({
            let c = classify_spec(name@);
            match r {
                Ok(opt) => match opt {
                    None => c is Ignored,
                    Some(p) => (c matches FileKind::Entry { base, number } && p.0@ == base
                        && p.1 == number),
                },
                Err(e) => c is Malformed && (e matches Error::FilenameParse(n) && n@ == name@),
            }
        }),
{
    let n = name.len();
    if n > 0 && name[0] == DOT {
        return Ok(None);
    }
    let mut i: usize = 0;
    while i < n && name[i] != DOT
        invariant
            0 <= i <= n,
            n == name@.len(),
            seg_end(name@, 0) == seg_end(name@, i as int),
        decreases n - i,
    {
        i = i + 1;
    }
    assert(seg_end(name@, 0) == i as int);
    if i == n {
        return Err(Error::FilenameParse(slice_to_vec(name)));
    }
    let d1 = i;
    let mut j = d1 + 1;
    while j < n && name[j] != DOT
        invariant
            d1 + 1 <= j <= n,
            n == name@.len(),
            seg_end(name@, d1 + 1) == seg_end(name@, j as int),
        decreases n - j,
    {
        j = j + 1;
    }
    assert(seg_end(name@, d1 + 1) == j as int);
    let ghost seg2 = second_segment(name@);
    assert(seg2 =~= name@.subrange(d1 + 1, j as int));

    // Is the second segment the literal token `log`?
    let is_log = j - (d1 + 1) == 3 && name[d1 + 1] == 108 && name[d1 + 2] == 111
        && name[d1 + 3] == 103;
    proof {
        if is_log {
            assert(seg2 =~= log_token());
        } else {
            assert(seg2 != log_token()) by {
                if seg2 == log_token() {
                    assert(seg2.len() == 3);
                    assert(seg2[0] == 108 && seg2[1] == 111 && seg2[2] == 103);
                    assert(name@[d1 + 1 as int] == seg2[0]);
                    assert(name@[d1 + 2 as int] == seg2[1]);
                    assert(name@[d1 + 3 as int] == seg2[2]);
                }
            }
        }
    }
    if is_log {
        let base = copy_prefix(name, d1);
        return Ok(Some((base, 0)));
    }

    // Otherwise the second segment must be a generation number.
    let mut p = d1 + 1;
    if p < j && name[p] == PLUS {
        p = p + 1;
    }
    let ghost body = number_body(seg2);
    assert(body =~= name@.subrange(p as int, j as int));
    if p == j {
        // Empty digit string: not a number.
        assert(!is_generation_number(seg2));
        return Err(Error::FilenameParse(slice_to_vec(name)));
    }
    let mut acc: u32 = 0;
    let mut k = p;
    while k < j
        invariant
            p <= k <= j <= n,
            n == name@.len(),
            p > d1,
            body =~= name@.subrange(p as int, j as int),
            all_digits(name@.subrange(p as int, k as int)),
            acc == dec_value(name@.subrange(p as int, k as int)),
            acc <= 255,
        decreases j - k,
    {
        let b = name[k];
        let ghost pre = name@.subrange(p as int, k as int);
        let ghost ext = name@.subrange(p as int, k + 1 as int);
        assert(ext.drop_last() =~= pre);
        assert(ext.last() == name@[k as int]);
        if !(DIGIT_ZERO <= b && b <= DIGIT_NINE) {
            // A non-digit inside the number segment: malformed.
            assert(!all_digits(body)) by {
                assert(body[k - p] == name@[k as int]);
                assert(!is_digit(body[k - p]));
            }
            assert(!is_generation_number(seg2));
            return Err(Error::FilenameParse(slice_to_vec(name)));
        }
        let next = acc * 10 + (b - DIGIT_ZERO) as u32;
        if next > 255 {
            // The value has outgrown a generation number.
            assert(dec_value(ext) > 255);
            assert(!is_generation_number(seg2)) by {
                if is_generation_number(seg2) {
                    assert(all_digits(body));
                    assert(body.subrange(0, k + 1 - p) =~= ext);
                    lemma_dec_value_prefix(body, k + 1 - p);
                }
            }
            return Err(Error::FilenameParse(slice_to_vec(name)));
        }
        acc = next;
        k = k + 1;
    }
    assert(name@.subrange(p as int, k as int) =~= body);
    assert(is_generation_number(seg2));
    assert(generation_number(seg2) == acc);
    let base = copy_prefix(name, d1);
    Ok(Some((base, acc as u8)))
}

/// Copies the first `end` bytes of `name` into a fresh vector.
fn copy_prefix(name: &[u8], end: usize) -> (r: Vec<u8>)
    requires
        end <= name@.len(),
    ensures
        r@ == name@.subrange(0, end as int),
{
    let mut v: Vec<u8> = Vec::new();
    let mut k: usize = 0;
    while k < end
        invariant
            0 <= k <= end <= name@.len(),
            v@ =~= name@.subrange(0, k as int),
        decreases end - k,
    {
        v.push(name[k]);
        assert(v@ =~= name@.subrange(0, k + 1 as int));
        k = k + 1;
    }
    assert(v@ =~= name@.subrange(0, end as int));
    v
}

/// The canonical decimal digits of a non-negative number.
pub open spec fn dec_digits(n: int) -> Seq<u8>
    decreases n,
{
    if n < 10 {
        seq![(DIGIT_ZERO + n) as u8]
    } else {
        dec_digits(n / 10) + seq![(DIGIT_ZERO + n % 10) as u8]
    }
}

/// Canonical decimal digits really are digits, and never a dot.
proof fn lemma_dec_digits_are_digits(n: int)
    requires
        0 <= n,
    ensures
        dec_digits(n).len() >= 1,
        all_digits(dec_digits(n)),
    decreases n,
{
    if n >= 10 {
        lemma_dec_digits_are_digits(n / 10);
        assert forall|i: int| 0 <= i < dec_digits(n).len() implies is_digit(
            dec_digits(n)[i],
        ) by {
            if i < dec_digits(n / 10).len() {
                assert(dec_digits(n)[i] == dec_digits(n / 10)[i]);
            }
        }
    }
}

/// Reading the canonical digits back gives the number again.
proof fn lemma_dec_digits_value(n: int)
    requires
        0 <= n,
    ensures
        dec_value(dec_digits(n)) == n,
    decreases n,
{
    if n < 10 {
        let s = dec_digits(n);
        assert(s.drop_last() =~= Seq::<u8>::empty());
        assert(s.last() == (DIGIT_ZERO + n) as u8);
        assert((DIGIT_ZERO + n) as u8 == DIGIT_ZERO + n);
        assert(dec_value(Seq::<u8>::empty()) == 0);
        assert(dec_value(s) == dec_value(s.drop_last()) * 10 + (s.last() - DIGIT_ZERO));
    } else {
        lemma_dec_digits_value(n / 10);
        let s = dec_digits(n);
        assert(s.drop_last() =~= dec_digits(n / 10));
        assert(s.last() == (DIGIT_ZERO + n % 10) as u8);
        assert((DIGIT_ZERO + n % 10) as u8 == DIGIT_ZERO + n % 10);
        assert(dec_value(s) == dec_value(s.drop_last()) * 10 + (s.last() - DIGIT_ZERO));
        vstd::arithmetic::div_mod::lemma_fundamental_div_mod(n, 10);
    }
}

/// The full filename of generation `n` of group `base`: `<base>.log` for
/// the primary file, `<base>.<n>.log` for a numbered backup.
pub open spec fn file_name_spec(base: Seq<u8>, n: int) -> Seq<u8> {
    if n == 0 {
        base + log_suffix()
    } else {
        base + seq![DOT] + dec_digits(n) + log_suffix()
    }
}

/// Renders the canonical decimal digits of `n`.
fn render_digits(n: u16) -> (r: Vec<u8>)
    ensures
        r@ == dec_digits(n as int),
    decreases n,
{
    if n < 10 {
        let mut v: Vec<u8> = Vec::new();
        v.push(DIGIT_ZERO + n as u8);
        assert(v@ =~= dec_digits(n as int));
        v
    } else {
        let mut v = render_digits(n / 10);
        v.push(DIGIT_ZERO + (n % 10) as u8);
        assert(v@ =~= dec_digits(n as int));
        v
    }
}

/// Builds the filename of generation `n` of group `base`.
pub fn make_file_name(base: &[u8], n: u16) -> (r: Vec<u8>)
    ensures
        r@ == file_name_spec(base@, n as int),
{
    let mut v = copy_prefix(base, base.len());
    assert(v@ =~= base@);
    if n > 0 {
        v.push(DOT);
        let ds = render_digits(n);
        let mut k: usize = 0;
        while k < ds.len()
            invariant
                0 <= k <= ds@.len(),
                ds@ == dec_digits(n as int),
                v@ =~= base@ + seq![DOT] + ds@.subrange(0, k as int),
            decreases ds@.len() - k,
        {
            v.push(ds[k]);
            assert(v@ =~= base@ + seq![DOT] + ds@.subrange(0, k + 1 as int));
            k = k + 1;
        }
        assert(ds@.subrange(0, ds@.len() as int) =~= ds@);
    }
    v.push(DOT);
    v.push(108);
    v.push(111);
    v.push(103);
    assert(v@ =~= file_name_spec(base@, n as int));
    v
}

/// Law: every filename `<base>.log`, for a nonempty dot-free base that
/// does not begin with a dot, classifies as generation 0 of `base`.
pub proof fn lemma_primary_classifies(base: Seq<u8>)
    requires
        base.len() > 0,
        forall|i: int| 0 <= i < base.len() ==> base[i] != DOT,
    ensures
        classify_spec(base + log_suffix()) == (FileKind::Entry { base: base, number: 0u8 }),
{
    let name = base + log_suffix();
    assert(name[0] == base[0]);
    assert(name[base.len() as int] == DOT);
    lemma_seg_end_at(name, 0, base.len() as int);
    assert forall|i: int| base.len() + 1 <= i < name.len() implies name[i] != DOT by {
        assert(name[i] == log_suffix()[i - base.len()]);
    }
    lemma_seg_end_none(name, base.len() as int + 1);
    assert(second_segment(name) =~= log_token());
    assert(name.subrange(0, base.len() as int) =~= base);
}

/// Law: every filename `<base>.<n>.log`, written with the canonical
/// decimal digits of `n`, classifies as generation `n` of `base`.
pub proof fn lemma_numbered_classifies(base: Seq<u8>, n: u8)
    requires
        base.len() > 0,
        forall|i: int| 0 <= i < base.len() ==> base[i] != DOT,
    ensures
        classify_spec(base + seq![DOT] + dec_digits(n as int) + log_suffix()) == (
        FileKind::Entry { base: base, number: n }),
{
    let ds = dec_digits(n as int);
    lemma_dec_digits_are_digits(n as int);
    lemma_dec_digits_value(n as int);
    let name = base + seq![DOT] + ds + log_suffix();
    assert(name[0] == base[0]);
    assert(name[base.len() as int] == DOT);
    lemma_seg_end_at(name, 0, base.len() as int);
    let d2 = base.len() as int + 1 + ds.len() as int;
    assert(name[d2] == DOT);
    assert forall|i: int| base.len() + 1 <= i < d2 implies name[i] != DOT by {
        assert(name[i] == ds[i - (base.len() + 1)]);
        assert(is_digit(ds[i - (base.len() + 1)]));
    }
    lemma_seg_end_at(name, base.len() as int + 1, d2);
    let seg2 = second_segment(name);
    assert(seg2 =~= ds);
    assert(seg2 != log_token()) by {
        if seg2 == log_token() {
            assert(is_digit(ds[0]));
            assert(seg2[0] == 108);
        }
    }
    assert(number_body(seg2) =~= seg2) by {
        assert(is_digit(ds[0]));
    }
    assert(is_generation_number(seg2));
    assert(generation_number(seg2) == n);
    assert(name.subrange(0, base.len() as int) =~= base);
}

/// Law: every filename that begins with a dot is ignored.
pub proof fn lemma_dotfile_ignored(name: Seq<u8>)
    requires
        name.len() > 0,
        name[0] == DOT,
    ensures
        classify_spec(name) is Ignored,
{
}

/// Law: a filename that is no dotfile and either lacks a second
/// dot-separated segment or whose second segment is neither `log` nor a
/// generation number is malformed.
pub proof fn lemma_malformed(name: Seq<u8>)
    requires
        !(name.len() > 0 && name[0] == DOT),
        seg_end(name, 0) == name.len() || (second_segment(name) != log_token()
            && !is_generation_number(second_segment(name))),
    ensures
        classify_spec(name) is Malformed,
{
}

/// Law: distinct generations of one group live in distinct files.
pub proof fn lemma_file_name_injective(base: Seq<u8>, m: int, n: int)
    requires
        0 <= m,
        0 <= n,
        m != n,
    ensures
        file_name_spec(base, m) != file_name_spec(base, n),
{
    lemma_dec_digits_are_digits(m);
    lemma_dec_digits_are_digits(n);
    assert(log_suffix().len() == 4);
    assert(m != 0 ==> file_name_spec(base, m).len() == base.len() + 5 + dec_digits(m).len());
    assert(n != 0 ==> file_name_spec(base, n).len() == base.len() + 5 + dec_digits(n).len());
    assert(m == 0 ==> file_name_spec(base, m).len() == base.len() + 4);
    assert(n == 0 ==> file_name_spec(base, n).len() == base.len() + 4);
    if m != 0 && n != 0 {
        let dm = dec_digits(m);
        let dn = dec_digits(n);
        if file_name_spec(base, m) == file_name_spec(base, n) {
            assert(dm.len() == dn.len());
            assert(dm =~= dn) by {
                assert forall|i: int| 0 <= i < dm.len() implies dm[i] == dn[i] by {
                    let nm = file_name_spec(base, m);
                    let nn = file_name_spec(base, n);
                    assert(nm[base.len() + 1 + i] == dm[i]);
                    assert(nn[base.len() + 1 + i] == dn[i]);
                }
            }
            lemma_dec_digits_value(m);
            lemma_dec_digits_value(n);
        }
    }
}

} // verus!
