//! Attachment names of the form `{stem}_{index}.txt`.  The trailing
//! number doubles as the ordering key, so a downloader can recover a
//! chunk's sequence index from the transport message alone.

use vstd::prelude::*;

verus! {

/// The decimal digit bytes of `n`, most significant first, no leading
/// zeros (`0` itself is the single byte `b'0'`).
pub open spec fn dec_digits(n: nat) -> Seq<u8>
    decreases n,
{
    if n < 10 {
        seq![(48 + n) as u8]
    } else {
        dec_digits(n / 10).push((48 + n % 10) as u8)
    }
}

/// Whether `b` is an ASCII decimal digit.
pub open spec fn is_digit(b: u8) -> bool {
    48 <= b <= 57
}

/// Whether every byte of `s` is an ASCII decimal digit.
pub open spec fn all_digits(s: Seq<u8>) -> bool {
    forall|i: int| 0 <= i < s.len() ==> is_digit(#[trigger] s[i])
}

/// The number the digit bytes of `s` denote, most significant first.
pub open spec fn digits_value(s: Seq<u8>) -> int
    decreases s.len(),
{
    if s.len() == 0 {
        0
    } else {
        digits_value(s.drop_last()) * 10 + s.last() - 48
    }
}

/// The byte suffix `.txt`.
pub open spec fn txt_suffix() -> Seq<u8> {
    seq![46u8, 116u8, 120u8, 116u8]
}

/// The attachment name for chunk `index` of the object called `stem`.
pub open spec fn chunk_name_spec(stem: Seq<u8>, index: nat) -> Seq<u8> {
    stem + seq![95u8] + dec_digits(index) + txt_suffix()
}

/// The position of the last occurrence of `b` in `s`, if any.
pub open spec fn find_last_byte(s: Seq<u8>, b: u8) -> Option<int>
    decreases s.len(),
{
    if s.len() == 0 {
        None
    } else if s.last() == b {
        Some(s.len() - 1)
    } else {
        find_last_byte(s.drop_last(), b)
    }
}

/// The sequence index recovered from an attachment name: the decimal run
/// between the last underscore and a final `.txt`, when the name has that
/// shape and the number fits in a `u64`.
pub open spec fn parsed_index(name: Seq<u8>) -> Option<int> {
    if name.len() < 4 || name.subrange(name.len() - 4, name.len() as int) != txt_suffix() {
        None
    } else {
        let head = name.take(name.len() - 4);
        match find_last_byte(head, 95) {
            None => None,
            Some(p) => {
                let run = head.skip(p + 1);
                if run.len() > 0 && all_digits(run) && digits_value(run) <= u64::MAX as int {
                    Some(digits_value(run))
                } else {
                    None
                }
            },
        }
    }
}

/// Digit bytes denote their value: reading back what `dec_digits` wrote
/// yields the number itself.
pub proof fn lemma_dec_digits_value(n: nat)
    ensures
        digits_value(dec_digits(n)) == n,
        all_digits(dec_digits(n)),
        dec_digits(n).len() >= 1,
    decreases n,
{
    if n < 10 {
        let s = dec_digits(n);
        assert(s.drop_last() =~= Seq::<u8>::empty());
        assert(s.last() == (48 + n) as u8);
        assert((48 + n) as u8 == 48 + n);
        assert(digits_value(s) == digits_value(Seq::<u8>::empty()) * 10 + (48 + n) - 48);
    } else {
        lemma_dec_digits_value(n / 10);
        let s = dec_digits(n);
        assert(s.drop_last() =~= dec_digits(n / 10));
        assert(s.last() == (48 + n % 10) as u8);
        assert((48 + n % 10) as u8 == 48 + n % 10);
        assert(digits_value(s) == (n / 10) * 10 + n % 10);
        assert(n == (n / 10) * 10 + n % 10) by {
            vstd::arithmetic::div_mod::lemma_fundamental_div_mod(n as int, 10);
        }
        assert(forall|i: int| 0 <= i < s.len() - 1 ==> #[trigger] s[i] == dec_digits(n / 10)[i]);
    }
}

/// A number's digit bytes never go negative when read back.
pub proof fn lemma_digits_value_nonneg(s: Seq<u8>)
    requires
        all_digits(s),
    ensures
        digits_value(s) >= 0,
    decreases s.len(),
{
    if s.len() > 0 {
        assert(all_digits(s.drop_last()));
        lemma_digits_value_nonneg(s.drop_last());
    }
}

/// Reading a prefix of a digit run never yields more than the whole run.
pub proof fn lemma_digits_value_prefix_le(s: Seq<u8>, j: int)
    requires
        0 <= j <= s.len(),
        all_digits(s),
    ensures
        digits_value(s.take(j)) <= digits_value(s),
    decreases s.len() - j,
{
    if j == s.len() {
        assert(s.take(j) =~= s);
    } else {
        lemma_digits_value_prefix_le(s, j + 1);
        assert(s.take(j + 1).drop_last() =~= s.take(j));
        assert(all_digits(s.take(j)));
        lemma_digits_value_nonneg(s.take(j));
    }
}

/// `find_last_byte` finds nothing exactly when the byte never occurs.
pub proof fn lemma_find_last_byte_none(s: Seq<u8>, b: u8)
    requires
        forall|j: int| 0 <= j < s.len() ==> s[j] != b,
    ensures
        find_last_byte(s, b) is None,
    decreases s.len(),
{
    if s.len() > 0 {
        lemma_find_last_byte_none(s.drop_last(), b);
    }
}

/// `find_last_byte` reports the position after which the byte no longer
/// occurs.
pub proof fn lemma_find_last_byte_at(s: Seq<u8>, b: u8, p: int)
    requires
        0 <= p < s.len(),
        s[p] == b,
        forall|j: int| p < j < s.len() ==> s[j] != b,
    ensures
        find_last_byte(s, b) == Some(p),
    decreases s.len(),
{
    if p < s.len() - 1 {
        lemma_find_last_byte_at(s.drop_last(), b, p);
    }
}

/// Write `n` in decimal.
pub fn fmt_u64(n: u64) -> (r: Vec<u8>)
    ensures
        r@ == dec_digits(n as nat),
{
    let mut acc: Vec<u8> = Vec::new();
    let mut m: u64 = n;
    while m >= 10
        invariant
            dec_digits(n as nat) =~= dec_digits(m as nat) + acc@.reverse(),
        decreases m,
    {
        let ghost pre = acc@;
        let d: u8 = (m % 10) as u8 + 48;
        acc.push(d);
        m = m / 10;
        proof {
            assert(acc@.reverse() =~= seq![d] + pre.reverse());
            assert(dec_digits(m as nat) + (seq![d] + pre.reverse()) =~= dec_digits(m as nat).push(
                d,
            ) + pre.reverse());
        }
    }
    let ghost pre = acc@;
    let d: u8 = m as u8 + 48;
    acc.push(d);
    proof {
        assert(acc@.reverse() =~= seq![d] + pre.reverse());
        assert(dec_digits(m as nat) =~= seq![d]);
        assert(dec_digits(n as nat) =~= acc@.reverse());
    }
    let len: usize = acc.len();
    let mut out: Vec<u8> = Vec::new();
    let mut k: usize = len;
    while k > 0
        invariant
            k <= len,
            len == acc@.len(),
            out@.len() == len - k,
            forall|i: int| 0 <= i < out@.len() ==> out@[i] == acc@[len - 1 - i],
        decreases k,
    {
        let b: u8 = acc[k - 1];
        out.push(b);
        k = k - 1;
    }
    proof {
        assert(out@ =~= acc@.reverse());
    }
    out
}

/// Read a decimal number.  Succeeds exactly on a non-empty all-digit
/// input whose value fits in a `u64`.
pub fn parse_u64(s: &Vec<u8>) -> (r: Option<u64>)
    ensures
        r matches Some(v) ==> s@.len() > 0 && all_digits(s@) && digits_value(s@) == v as int,
        r is None ==> (s@.len() == 0 || !all_digits(s@) || digits_value(s@) > u64::MAX as int),
{
    let n: usize = s.len();
    if n == 0 {
        return None;
    }
    let mut value: u64 = 0;
    let mut i: usize = 0;
    proof {
        assert(s@.take(0) =~= Seq::<u8>::empty());
    }
    while i < n
        invariant
            i <= n,
            n == s@.len(),
            all_digits(s@.take(i as int)),
            value as int == digits_value(s@.take(i as int)),
        decreases n - i,
    {
        let b: u8 = s[i];
        if b < 48 || b > 57 {
            return None;
        }
        let d: u8 = b - 48;
        proof {
            assert(s@.take(i as int + 1).drop_last() =~= s@.take(i as int));
            assert(all_digits(s@.take(i as int + 1)));
        }
        if value > (u64::MAX - d as u64) / 10 {
            proof {
                assert(digits_value(s@.take(i as int + 1)) > u64::MAX as int);
                if all_digits(s@) {
                    lemma_digits_value_prefix_le(s@, i as int + 1);
                }
            }
            return None;
        }
        value = value * 10 + d as u64;
        i = i + 1;
    }
    proof {
        assert(s@.take(n as int) =~= s@);
    }
    Some(value)
}

/// Copy `src` onto the end of `dst`.
pub fn append_bytes(dst: &mut Vec<u8>, src: &[u8])
    ensures
        final(dst)@ == old(dst)@ + src@,
{
    let ghost pre = dst@;
    dst.extend_from_slice(src);
    proof {
        assert forall|k: int| 0 <= k < dst@.len() implies dst@[k] == (pre + src@)[k] by {
            if k >= pre.len() {
                assert(cloned::<u8>(src@[k - pre.len()], dst@[k]));
            }
        }
        assert(dst@ =~= pre + src@);
    }
}

/// Build the attachment name `{stem}_{index}.txt`.
pub fn make_chunk_name(stem: &Vec<u8>, index: u64) -> (r: Vec<u8>)
    ensures
        r@ == chunk_name_spec(stem@, index as nat),
{
    let mut r: Vec<u8> = Vec::new();
    append_bytes(&mut r, stem.as_slice());
    r.push(95);
    let digits = fmt_u64(index);
    append_bytes(&mut r, digits.as_slice());
    r.push(46);
    r.push(116);
    r.push(120);
    r.push(116);
    proof {
        assert(r@ =~= chunk_name_spec(stem@, index as nat));
    }
    r
}

/// Recover the sequence index from an attachment name: the decimal run
/// between the last underscore and a trailing `.txt`.  Fails exactly when
/// the name does not have that shape or the number overflows a `u64`.
pub fn parse_chunk_index(name: &Vec<u8>) -> (r: Option<u64>)
    ensures
        r matches Some(v) ==> parsed_index(name@) == Some(v as int),
        r is None ==> parsed_index(name@) is None,
{
    let n: usize = name.len();
    if n < 4 {
        return None;
    }
    if !(name[n - 4] == 46 && name[n - 3] == 116 && name[n - 2] == 120 && name[n - 1] == 116) {
        proof {
            assert(name@.subrange(n as int - 4, n as int) != txt_suffix());
        }
        return None;
    }
    proof {
        assert(name@.subrange(n as int - 4, n as int) =~= txt_suffix());
    }
    let head_len: usize = n - 4;
    let ghost head = name@.take(head_len as int);
    let mut k: usize = head_len;
    while k > 0
        invariant_except_break
            k <= head_len,
            head_len < name@.len(),
            head == name@.take(head_len as int),
            forall|j: int| k <= j < head_len ==> head[j] != 95,
        ensures
            k <= head_len,
            head_len < name@.len(),
            head == name@.take(head_len as int),
            forall|j: int| k <= j < head_len ==> head[j] != 95,
            k > 0 ==> head[k - 1] == 95,
        decreases k,
    {
        if name[k - 1] == 95 {
            break;
        }
        k = k - 1;
    }
    if k == 0 {
        proof {
            lemma_find_last_byte_none(head, 95);
        }
        return None;
    }
    let p: usize = k - 1;
    proof {
        lemma_find_last_byte_at(head, 95, p as int);
    }
    let run: Vec<u8> = vstd::slice::slice_to_vec(
        vstd::slice::slice_subrange(name.as_slice(), p + 1, head_len),
    );
    proof {
        assert(run@ =~= head.skip(p as int + 1));
    }
    if run.len() == 0 {
        return None;
    }
    parse_u64(&run)
}

/// Recovering the index from a freshly built name gives back exactly the
/// index that was written, whatever the stem holds.
pub proof fn lemma_chunk_name_round_trip(stem: Seq<u8>, index: u64)
    ensures
        parsed_index(chunk_name_spec(stem, index as nat)) == Some(index as int),
{
    let name = chunk_name_spec(stem, index as nat);
    let digits = dec_digits(index as nat);
    lemma_dec_digits_value(index as nat);
    assert(name.subrange(name.len() - 4, name.len() as int) =~= txt_suffix());
    let head = name.take(name.len() - 4);
    assert(head =~= stem + seq![95u8] + digits);
    let p = stem.len() as int;
    assert(head[p] == 95);
    assert forall|j: int| p < j < head.len() implies head[j] != 95 by {
        assert(head[j] == digits[j - p - 1]);
        assert(is_digit(digits[j - p - 1]));
    }
    lemma_find_last_byte_at(head, 95, p);
    assert(head.skip(p + 1) =~= digits);
}

} // verus!
