//! The model file format: a versioned, line-oriented text holding the
//! pre-tokenization pattern, the special tokens and the merge table in rank
//! order. The id of the merge on the k-th merge line is implicitly `256 + k`
//! and is not written.

use vstd::prelude::*;

use crate::codec::special_bytes;
use vstd::utf8::{encode_utf8, valid_utf8};

verus! {

/// Why a model file was refused.
#[derive(Debug, Clone, Copy, PartialEq, Eq, Structural)]
pub enum FormatError {
    /// The first line is not the expected version header.
    BadVersion,
    /// A line is missing, or bytes follow the final newline.
    Truncated,
    /// A field that must be a number is not a canonical decimal numeral
    /// within range.
    BadNumber,
    /// A special-token or merge line does not have the expected fields.
    BadLine,
    /// A line that must be text is not valid UTF-8.
    BadText,
}

/// The decimal numeral of `n`: most significant digit first, no leading
/// zeros.
pub open spec fn dec_digits(n: nat) -> Seq<u8>
    decreases n,
{
    if n < 10 {
        seq![(48 + n) as u8]
    } else {
        dec_digits(n / 10) + seq![(48 + n % 10) as u8]
    }
}

/// Every byte is an ASCII digit.
pub open spec fn all_digits(d: Seq<u8>) -> bool {
    forall|i: int| 0 <= i < d.len() ==> 48 <= #[trigger] d[i] <= 57
}

/// The value of a digit string, most significant digit first.
pub open spec fn dec_val(d: Seq<u8>) -> nat
    decreases d.len(),
{
    if d.len() == 0 {
        0
    } else {
        dec_val(d.drop_last()) * 10 + (d.last() - 48) as nat
    }
}

/// A canonical decimal numeral: non-empty, digits only, no leading zero.
pub open spec fn is_canonical_number(d: Seq<u8>) -> bool {
    d.len() >= 1 && all_digits(d) && (d.len() > 1 ==> d[0] != 48)
}

/// The numeral of `n` is a canonical numeral whose value is `n`.
pub proof fn lemma_dec_digits(n: nat)
    ensures
        is_canonical_number(dec_digits(n)),
        dec_val(dec_digits(n)) == n,
        !dec_digits(n).contains(10u8),
        !dec_digits(n).contains(32u8),
        n >= 1 ==> dec_digits(n)[0] != 48,
    decreases n,
{
    vstd::arithmetic::div_mod::lemma_fundamental_div_mod(n as int, 10);
    if n < 10 {
        let d = dec_digits(n);
        assert(d =~= seq![(48 + n) as u8]);
        assert(d.drop_last() =~= Seq::<u8>::empty());
        assert(dec_val(Seq::<u8>::empty()) == 0);
        assert(d.last() == (48 + n) as u8);
        assert(dec_val(d) == dec_val(d.drop_last()) * 10 + (d.last() - 48) as nat);
        assert(forall|i: int| 0 <= i < d.len() ==> 48 <= #[trigger] d[i] <= 57);
        assert(!d.contains(10u8) && !d.contains(32u8)) by {
            assert(forall|i: int| 0 <= i < d.len() ==> #[trigger] d[i] != 10u8 && d[i] != 32u8);
        }
    } else {
        lemma_dec_digits(n / 10);
        let pre = dec_digits(n / 10);
        let d = dec_digits(n);
        assert(d == pre + seq![(48 + n % 10) as u8]);
        assert(d.drop_last() =~= pre);
        assert(d.last() == (48 + n % 10) as u8);
        assert(dec_val(d) == dec_val(pre) * 10 + n % 10);
        assert(d[0] == pre[0]);
        assert(n / 10 >= 1) by {
            vstd::arithmetic::div_mod::lemma_div_is_ordered(10, n as int, 10);
        }
        assert(pre[0] != 48);
        assert forall|i: int| 0 <= i < d.len() implies 48 <= #[trigger] d[i] <= 57 by {
            if i < pre.len() {
                assert(d[i] == pre[i]);
            }
        }
        assert(!d.contains(10u8) && !d.contains(32u8)) by {
            assert forall|i: int| 0 <= i < d.len() implies #[trigger] d[i] != 10u8 && d[i] != 32u8
            by {
                assert(48 <= d[i] <= 57);
            }
        }
    }
}

/// The numeral of `x`, as bytes.
pub fn fmt_number(x: usize) -> (r: Vec<u8>)
    ensures
        r@ == dec_digits(x as nat),
    decreases x,
{
    if x < 10 {
        let mut v: Vec<u8> = Vec::new();
        v.push(48 + (x as u8));
        proof {
            assert(v@ =~= dec_digits(x as nat));
        }
        v
    } else {
        let mut v = fmt_number(x / 10);
        v.push(48 + ((x % 10) as u8));
        proof {
            assert(v@ =~= dec_digits(x as nat));
        }
        v
    }
}

/// One special-token line: the literal string, a space, its id, a newline.
pub open spec fn special_line(name: Seq<u8>, id: i32) -> Seq<u8> {
    name + seq![32u8] + dec_digits(id as nat) + seq![10u8]
}

/// The special-token lines, in table order.
pub open spec fn specials_block(sp: Seq<(Seq<u8>, i32)>) -> Seq<u8>
    decreases sp.len(),
{
    if sp.len() == 0 {
        Seq::<u8>::empty()
    } else {
        special_line(sp[0].0, sp[0].1) + specials_block(sp.drop_first())
    }
}

/// One merge line: left id, a space, right id, a newline.
pub open spec fn merge_line(p: (i32, i32)) -> Seq<u8> {
    dec_digits(p.0 as nat) + seq![32u8] + dec_digits(p.1 as nat) + seq![10u8]
}

/// The merge lines, in rank order.
pub open spec fn merges_block(ms: Seq<(i32, i32)>) -> Seq<u8>
    decreases ms.len(),
{
    if ms.len() == 0 {
        Seq::<u8>::empty()
    } else {
        merge_line(ms[0]) + merges_block(ms.drop_first())
    }
}

/// The whole model file: version header, pattern line, special-token count,
/// one line per special token, one line per merge in rank order.
pub open spec fn model_bytes(pattern: Seq<u8>, sp: Seq<(Seq<u8>, i32)>, ms: Seq<(i32, i32)>) -> Seq<
    u8,
> {
    encode_utf8("minbpe v1"@) + seq![10u8] + pattern + seq![10u8] + dec_digits(sp.len())
        + seq![10u8] + specials_block(sp) + merges_block(ms)
}

/// The state is writable as a model file that reads back: no newline in the
/// pattern; special-token strings non-empty without space or newline, with
/// ids at least zero; merge ids at least zero.
pub open spec fn wf_model(pattern: Seq<u8>, sp: Seq<(Seq<u8>, i32)>, ms: Seq<(i32, i32)>) -> bool {
    &&& !pattern.contains(10u8)
    &&& forall|j: int|
        0 <= j < sp.len() ==> {
            &&& (#[trigger] sp[j]).0.len() > 0
            &&& !sp[j].0.contains(10u8)
            &&& !sp[j].0.contains(32u8)
            &&& sp[j].1 >= 0
        }
    &&& forall|k: int| 0 <= k < ms.len() ==> (#[trigger] ms[k]).0 >= 0 && ms[k].1 >= 0
}

/// Append a copy of `src` to `out`.
fn push_bytes(out: &mut Vec<u8>, src: &[u8])
    ensures
        final(out)@ == old(out)@ + src@,
{
    out.extend_from_slice(src);
    assert(out@ =~= old(out)@ + src@);
}

/// Serialize tokenizer state to the model file format. The merge ids are
/// implicit in the line order and are not written.
pub fn format_model(
    pattern: &str,
    special_tokens: &Vec<(String, i32)>,
    merges: &Vec<(i32, i32)>,
) -> (r: Vec<u8>)
    requires
        forall|j: int|
            0 <= j < special_tokens@.len() ==> (#[trigger] special_tokens@[j]).1 >= 0,
        forall|k: int| 0 <= k < merges@.len() ==> (#[trigger] merges@[k]).0 >= 0 && merges@[k].1
            >= 0,
    ensures
        r@ == model_bytes(
            encode_utf8(pattern@),
            special_bytes(special_tokens.deep_view()),
            merges@,
        ),
{
    let ghost spb = special_bytes(special_tokens.deep_view());
    proof {
        assert forall|j: int| 0 <= j < special_tokens@.len() implies #[trigger] spb[j] == (
            encode_utf8(special_tokens@[j].0@),
            special_tokens@[j].1,
        ) by {
            assert(special_tokens.deep_view()[j] == (
                special_tokens@[j].0@,
                special_tokens@[j].1,
            ));
        }
    }
    let mut out: Vec<u8> = Vec::new();
    push_bytes(&mut out, "minbpe v1".as_bytes());
    out.push(10);
    push_bytes(&mut out, pattern.as_bytes());
    out.push(10);
    let count = fmt_number(special_tokens.len());
    push_bytes(&mut out, count.as_slice());
    out.push(10);
    let ghost head = out@;
    let m = special_tokens.len();
    let mut j: usize = 0;
    proof {
        assert(specials_block(spb.take(0)) =~= Seq::<u8>::empty());
        assert(out@ =~= head + specials_block(spb.take(0)));
    }
    while j < m
        invariant
            j <= m,
            m == special_tokens@.len(),
            spb == special_bytes(special_tokens.deep_view()),
            spb.len() == m,
            forall|j2: int| 0 <= j2 < m ==> (#[trigger] special_tokens@[j2]).1 >= 0,
            forall|j2: int| 0 <= j2 < m ==> #[trigger] spb[j2] == (
                encode_utf8(special_tokens@[j2].0@),
                special_tokens@[j2].1,
            ),
            out@ == head + specials_block(spb.take(j as int)),
        decreases m - j,
    {
        let ghost pre = out@;
        let tok = &special_tokens[j];
        push_bytes(&mut out, tok.0.as_str().as_bytes());
        out.push(32);
        let id_digits = fmt_number(i32_to_usize(tok.1));
        push_bytes(&mut out, id_digits.as_slice());
        out.push(10);
        proof {
            assert(out@ =~= pre + special_line(spb[j as int].0, spb[j as int].1));
            lemma_specials_block_snoc(spb.take(j as int), spb[j as int]);
            assert(spb.take(j + 1) =~= spb.take(j as int).push(spb[j as int]));
            assert(out@ =~= head + specials_block(spb.take(j + 1)));
        }
        j = j + 1;
    }
    proof {
        assert(spb.take(m as int) =~= spb);
    }
    let ghost head2 = out@;
    let n = merges.len();
    let mut k: usize = 0;
    proof {
        assert(merges_block(merges@.take(0)) =~= Seq::<u8>::empty());
        assert(out@ =~= head2 + merges_block(merges@.take(0)));
    }
    while k < n
        invariant
            k <= n,
            n == merges@.len(),
            forall|k2: int| 0 <= k2 < n ==> (#[trigger] merges@[k2]).0 >= 0 && merges@[k2].1 >= 0,
            out@ == head2 + merges_block(merges@.take(k as int)),
        decreases n - k,
    {
        let ghost pre = out@;
        let p = merges[k];
        let l_digits = fmt_number(i32_to_usize(p.0));
        push_bytes(&mut out, l_digits.as_slice());
        out.push(32);
        let r_digits = fmt_number(i32_to_usize(p.1));
        push_bytes(&mut out, r_digits.as_slice());
        out.push(10);
        proof {
            assert(out@ =~= pre + merge_line(merges@[k as int]));
            lemma_merges_block_snoc(merges@.take(k as int), merges@[k as int]);
            assert(merges@.take(k + 1) =~= merges@.take(k as int).push(merges@[k as int]));
            assert(out@ =~= head2 + merges_block(merges@.take(k + 1)));
        }
        k = k + 1;
    }
    proof {
        assert(merges@.take(n as int) =~= merges@);
        assert(out@ =~= model_bytes(encode_utf8(pattern@), spb, merges@));
    }
    out
}

/// A non-negative id as a machine word.
fn i32_to_usize(x: i32) -> (r: usize)
    requires
        x >= 0,
    ensures
        r == x as nat,
{
    x as usize
}

/// Writing one more special-token line appends it.
proof fn lemma_specials_block_snoc(sp: Seq<(Seq<u8>, i32)>, e: (Seq<u8>, i32))
    ensures
        specials_block(sp.push(e)) == specials_block(sp) + special_line(e.0, e.1),
    decreases sp.len(),
{
    if sp.len() == 0 {
        assert(sp.push(e)[0] == e);
        assert(sp.push(e).drop_first() =~= Seq::<(Seq<u8>, i32)>::empty());
        assert(specials_block(Seq::<(Seq<u8>, i32)>::empty()) == Seq::<u8>::empty());
        assert(specials_block(sp) == Seq::<u8>::empty());
        assert(specials_block(sp.push(e)) == special_line(e.0, e.1) + Seq::<u8>::empty());
        assert(special_line(e.0, e.1) + Seq::<u8>::empty() =~= Seq::<u8>::empty() + special_line(
            e.0,
            e.1,
        ));
    } else {
        assert(sp.push(e).drop_first() =~= sp.drop_first().push(e));
        assert(sp.push(e)[0] == sp[0]);
        lemma_specials_block_snoc(sp.drop_first(), e);
        assert(specials_block(sp.push(e)) == special_line(sp[0].0, sp[0].1) + specials_block(
            sp.drop_first().push(e),
        ));
        assert(specials_block(sp) == special_line(sp[0].0, sp[0].1) + specials_block(
            sp.drop_first(),
        ));
        assert(special_line(sp[0].0, sp[0].1) + (specials_block(sp.drop_first()) + special_line(
            e.0,
            e.1,
        )) =~= (special_line(sp[0].0, sp[0].1) + specials_block(sp.drop_first())) + special_line(
            e.0,
            e.1,
        ));
        assert(specials_block(sp.push(e)) == specials_block(sp) + special_line(e.0, e.1));
    }
}

/// The first position at or after `pos` holding the byte `b`.
pub open spec fn find_byte(data: Seq<u8>, b: u8, pos: int) -> Option<int>
    decreases data.len() - pos,
    when 0 <= pos <= data.len()
{
    if pos >= data.len() {
        None
    } else if data[pos] == b {
        Some(pos)
    } else {
        find_byte(data, b, pos + 1)
    }
}

/// `find_byte` finds an occurrence that nothing precedes.
pub proof fn lemma_find_byte_in(data: Seq<u8>, b: u8, start: int, q: int)
    requires
        0 <= start <= q < data.len(),
        data[q] == b,
        forall|i: int| start <= i < q ==> data[i] != b,
    ensures
        find_byte(data, b, start) == Some(q),
    decreases q - start,
{
    if start < q {
        lemma_find_byte_in(data, b, start + 1, q);
    }
}

/// Basic facts about a found position.
pub proof fn lemma_find_byte_char(data: Seq<u8>, b: u8, start: int)
    requires
        0 <= start <= data.len(),
    ensures
        match find_byte(data, b, start) {
            Some(q) => start <= q < data.len() && data[q] == b && (forall|i: int|
                start <= i < q ==> data[i] != b),
            None => forall|i: int| start <= i < data.len() ==> data[i] != b,
        },
    decreases data.len() - start,
{
    if start < data.len() && data[start] != b {
        lemma_find_byte_char(data, b, start + 1);
    }
}

/// The next line of the file: its bytes (without the newline) and the
/// position just past the newline. `None` when no newline follows `pos`:
/// every line must end with one.
pub open spec fn spec_line(data: Seq<u8>, pos: int) -> Option<(Seq<u8>, int)> {
    match find_byte(data, 10u8, pos) {
        Some(q) => Some((data.subrange(pos, q), q + 1)),
        None => None,
    }
}

/// A special-token line splits at its first space into a non-empty UTF-8
/// name and the canonical numeral of its id.
pub open spec fn parse_special_line(line: Seq<u8>) -> Result<(Seq<u8>, i32), FormatError> {
    match find_byte(line, 32u8, 0) {
        None => Err(FormatError::BadLine),
        Some(q) => {
            let name = line.take(q);
            let digits = line.skip(q + 1);
            if name.len() == 0 {
                Err(FormatError::BadLine)
            } else if !valid_utf8(name) {
                Err(FormatError::BadText)
            } else if !(is_canonical_number(digits) && dec_val(digits) <= i32::MAX) {
                Err(FormatError::BadNumber)
            } else {
                Ok((name, dec_val(digits) as i32))
            }
        },
    }
}

/// A merge line splits at its first space into the canonical numerals of
/// the left and right ids.
pub open spec fn parse_merge_line(line: Seq<u8>) -> Result<(i32, i32), FormatError> {
    match find_byte(line, 32u8, 0) {
        None => Err(FormatError::BadLine),
        Some(q) => {
            let left = line.take(q);
            let right = line.skip(q + 1);
            if !(is_canonical_number(left) && dec_val(left) <= i32::MAX && is_canonical_number(
                right,
            ) && dec_val(right) <= i32::MAX) {
                Err(FormatError::BadNumber)
            } else {
                Ok((dec_val(left) as i32, dec_val(right) as i32))
            }
        },
    }
}

/// Read `n` special-token lines from `pos`: the entries in file order and
/// the position after the last line.
pub open spec fn parse_specials(data: Seq<u8>, pos: int, n: nat) -> Result<
    (Seq<(Seq<u8>, i32)>, int),
    FormatError,
>
    decreases n,
{
    if n == 0 {
        Ok((Seq::<(Seq<u8>, i32)>::empty(), pos))
    } else {
        match spec_line(data, pos) {
            None => Err(FormatError::Truncated),
            Some(l) => match parse_special_line(l.0) {
                Err(e) => Err(e),
                Ok(entry) => match parse_specials(data, l.1, (n - 1) as nat) {
                    Err(e) => Err(e),
                    Ok(rest) => Ok((seq![entry] + rest.0, rest.1)),
                },
            },
        }
    }
}

/// Read merge lines from `pos` to the end of the file, in rank order.
pub open spec fn parse_merges(data: Seq<u8>, pos: int) -> Result<Seq<(i32, i32)>, FormatError>
    decreases data.len() - pos,
    when 0 <= pos <= data.len()
    via parse_merges_decreases
{
    if pos >= data.len() {
        Ok(Seq::<(i32, i32)>::empty())
    } else {
        match spec_line(data, pos) {
            None => Err(FormatError::Truncated),
            Some(l) => match parse_merge_line(l.0) {
                Err(e) => Err(e),
                Ok(p) => match parse_merges(data, l.1) {
                    Err(e) => Err(e),
                    Ok(rest) => Ok(seq![p] + rest),
                },
            },
        }
    }
}

#[via_fn]
proof fn parse_merges_decreases(data: Seq<u8>, pos: int) {
    if 0 <= pos < data.len() {
        lemma_find_byte_char(data, 10u8, pos);
    }
}

/// The whole model file, read strictly: version header, pattern line,
/// special-token count, that many special-token lines, then merge lines to
/// the end. The result is the pattern bytes, the special tokens and the
/// merge pairs, or the first failure.
pub open spec fn parse_spec(data: Seq<u8>) -> Result<
    (Seq<u8>, Seq<(Seq<u8>, i32)>, Seq<(i32, i32)>),
    FormatError,
> {
    match spec_line(data, 0) {
        None => Err(FormatError::Truncated),
        Some(l0) => if l0.0 != encode_utf8("minbpe v1"@) {
            Err(FormatError::BadVersion)
        } else {
            match spec_line(data, l0.1) {
                None => Err(FormatError::Truncated),
                Some(l1) => if !valid_utf8(l1.0) {
                    Err(FormatError::BadText)
                } else {
                    match spec_line(data, l1.1) {
                        None => Err(FormatError::Truncated),
                        Some(l2) => if !(is_canonical_number(l2.0) && dec_val(l2.0)
                            <= usize::MAX) {
                            Err(FormatError::BadNumber)
                        } else {
                            match parse_specials(data, l2.1, dec_val(l2.0)) {
                                Err(e) => Err(e),
                                Ok(spp) => match parse_merges(data, spp.1) {
                                    Err(e) => Err(e),
                                    Ok(ms) => Ok((l1.0, spp.0, ms)),
                                },
                            }
                        },
                    }
                },
            }
        },
    }
}

/// Restored model state: the pre-tokenization pattern, the special tokens
/// and the merge table in rank order.
pub struct Model {
    /// The pre-tokenization pattern line.
    pub pattern: String,
    /// The special tokens with their reserved ids, in file order.
    pub special_tokens: Vec<(String, i32)>,
    /// The merge pairs in rank order; the pair at rank `k` merges to id
    /// `256 + k`.
    pub merges: Vec<(i32, i32)>,
}

/// Writing one more merge line appends it.
proof fn lemma_merges_block_snoc(ms: Seq<(i32, i32)>, p: (i32, i32))
    ensures
        merges_block(ms.push(p)) == merges_block(ms) + merge_line(p),
    decreases ms.len(),
{
    if ms.len() == 0 {
        assert(ms.push(p)[0] == p);
        assert(ms.push(p).drop_first() =~= Seq::<(i32, i32)>::empty());
        assert(merges_block(Seq::<(i32, i32)>::empty()) == Seq::<u8>::empty());
        assert(merges_block(ms) == Seq::<u8>::empty());
        assert(merges_block(ms.push(p)) == merge_line(p) + Seq::<u8>::empty());
        assert(merge_line(p) + Seq::<u8>::empty() =~= Seq::<u8>::empty() + merge_line(p));
    } else {
        assert(ms.push(p).drop_first() =~= ms.drop_first().push(p));
        assert(ms.push(p)[0] == ms[0]);
        lemma_merges_block_snoc(ms.drop_first(), p);
        assert(merges_block(ms.push(p)) == merge_line(ms[0]) + merges_block(
            ms.drop_first().push(p),
        ));
        assert(merges_block(ms) == merge_line(ms[0]) + merges_block(ms.drop_first()));
        assert(merge_line(ms[0]) + (merges_block(ms.drop_first()) + merge_line(p)) =~= (merge_line(
            ms[0],
        ) + merges_block(ms.drop_first())) + merge_line(p));
        assert(merges_block(ms.push(p)) == merges_block(ms) + merge_line(p));
    }
}

/// The version header holds no newline byte.
proof fn lemma_header_no_newline()
    ensures
        !encode_utf8("minbpe v1"@).contains(10u8),
{
    reveal_strlit("minbpe v1");
    let s = "minbpe v1"@;
    assert(s.len() == 9);
    assert(vstd::utf8::is_ascii_chars(s)) by {
        assert forall|i: int| 0 <= i < s.len() implies '\0' <= #[trigger] s[i] <= '\u{7f}' by {
            assert(s[0] == 'm' && s[1] == 'i' && s[2] == 'n' && s[3] == 'b' && s[4] == 'p' && s[5]
                == 'e' && s[6] == ' ' && s[7] == 'v' && s[8] == '1');
        }
    }
    vstd::utf8::is_ascii_chars_encode_utf8(s);
    let h = encode_utf8(s);
    assert forall|i: int| 0 <= i < h.len() implies #[trigger] h[i] != 10u8 by {
        assert(h[i] == s[i] as u8);
        assert(s[0] == 'm' && s[1] == 'i' && s[2] == 'n' && s[3] == 'b' && s[4] == 'p' && s[5]
            == 'e' && s[6] == ' ' && s[7] == 'v' && s[8] == '1');
    }
}

/// Reading the next line of a file whose suffix starts with `l`, a newline,
/// and `rest`, yields exactly `l` and stops right before `rest`.
proof fn lemma_spec_line_prefix(data: Seq<u8>, pos: int, l: Seq<u8>, rest: Seq<u8>)
    requires
        0 <= pos <= data.len(),
        data.skip(pos) == l + seq![10u8] + rest,
        !l.contains(10u8),
    ensures
        spec_line(data, pos) == Some((l, pos + l.len() + 1)),
        pos + l.len() + 1 <= data.len(),
        data.skip(pos + l.len() + 1) == rest,
{
    let q = pos + l.len();
    assert(data.skip(pos).len() == data.len() - pos);
    assert(q + 1 <= data.len());
    assert(data[q] == 10u8) by {
        assert(data.skip(pos)[l.len() as int] == 10u8);
    }
    assert forall|i: int| pos <= i < q implies data[i] != 10u8 by {
        assert(data.skip(pos)[i - pos] == l[i - pos]);
        assert(l[i - pos] != 10u8) by {
            assert(!l.contains(10u8));
        }
    }
    lemma_find_byte_in(data, 10u8, pos, q);
    assert(data.subrange(pos, q) =~= l) by {
        assert(forall|i: int| 0 <= i < l.len() ==> data.skip(pos)[i] == #[trigger] l[i]);
    }
    assert(data.skip(q + 1) =~= rest) by {
        assert(forall|i: int|
            0 <= i < rest.len() ==> data.skip(pos)[l.len() + 1 + i] == #[trigger] rest[i]);
    }
}

/// Reading back the lines that `specials_block` writes yields the table.
proof fn lemma_parse_specials_of_block(
    data: Seq<u8>,
    pos: int,
    sp: Seq<(Seq<u8>, i32)>,
    rest: Seq<u8>,
)
    requires
        0 <= pos <= data.len(),
        data.skip(pos) == specials_block(sp) + rest,
        forall|j: int|
            0 <= j < sp.len() ==> {
                &&& (#[trigger] sp[j]).0.len() > 0
                &&& !sp[j].0.contains(10u8)
                &&& !sp[j].0.contains(32u8)
                &&& valid_utf8(sp[j].0)
                &&& sp[j].1 >= 0
            },
    ensures
        parse_specials(data, pos, sp.len()) == Ok::<(Seq<(Seq<u8>, i32)>, int), FormatError>(
            (sp, pos + specials_block(sp).len()),
        ),
        pos + specials_block(sp).len() <= data.len(),
        data.skip(pos + specials_block(sp).len()) == rest,
    decreases sp.len(),
{
    if sp.len() == 0 {
        assert(sp =~= Seq::<(Seq<u8>, i32)>::empty());
        assert(specials_block(sp) == Seq::<u8>::empty());
        assert(data.skip(pos) =~= rest);
    } else {
        let e = sp[0];
        let sp2 = sp.drop_first();
        let name = e.0;
        let dd = dec_digits(e.1 as nat);
        lemma_dec_digits(e.1 as nat);
        let l = name + seq![32u8] + dd;
        assert(specials_block(sp) == special_line(e.0, e.1) + specials_block(sp2));
        assert(data.skip(pos) =~= l + seq![10u8] + (specials_block(sp2) + rest)) by {
            assert(special_line(e.0, e.1) =~= l + seq![10u8]);
        }
        assert(!l.contains(10u8)) by {
            assert forall|i: int| 0 <= i < l.len() implies #[trigger] l[i] != 10u8 by {
                if i < name.len() {
                    assert(l[i] == name[i]);
                    assert(!name.contains(10u8));
                } else if i == name.len() {
                } else {
                    assert(l[i] == dd[i - name.len() - 1]);
                    assert(!dd.contains(10u8));
                }
            }
        }
        lemma_spec_line_prefix(data, pos, l, specials_block(sp2) + rest);
        let pos2 = pos + l.len() + 1;
        assert(parse_special_line(l) == Ok::<(Seq<u8>, i32), FormatError>((name, e.1))) by {
            assert(l[name.len() as int] == 32u8);
            assert forall|i: int| 0 <= i < name.len() implies l[i] != 32u8 by {
                assert(l[i] == name[i]);
                assert(!name.contains(32u8));
            }
            lemma_find_byte_in(l, 32u8, 0, name.len() as int);
            assert(l.take(name.len() as int) =~= name);
            assert(l.skip(name.len() as int + 1) =~= dd);
            assert(dec_val(dd) == e.1 as nat);
        }
        lemma_parse_specials_of_block(data, pos2, sp2, rest);
        assert forall|j: int|
            0 <= j < sp2.len() implies (#[trigger] sp2[j]) == sp[j + 1] by {}
        assert(seq![e] + sp2 =~= sp);
        assert(pos2 + specials_block(sp2).len() == pos + specials_block(sp).len());
    }
}

/// Reading back the lines that `merges_block` writes, to the end of the
/// file, yields the merge table.
proof fn lemma_parse_merges_of_block(data: Seq<u8>, pos: int, ms: Seq<(i32, i32)>)
    requires
        0 <= pos <= data.len(),
        data.skip(pos) == merges_block(ms),
        forall|k: int| 0 <= k < ms.len() ==> (#[trigger] ms[k]).0 >= 0 && ms[k].1 >= 0,
    ensures
        parse_merges(data, pos) == Ok::<Seq<(i32, i32)>, FormatError>(ms),
    decreases ms.len(),
{
    if ms.len() == 0 {
        assert(merges_block(ms).len() == 0);
        assert(data.skip(pos).len() == data.len() - pos);
        assert(pos == data.len());
        assert(ms =~= Seq::<(i32, i32)>::empty());
    } else {
        let p = ms[0];
        let ms2 = ms.drop_first();
        let dl = dec_digits(p.0 as nat);
        let dr = dec_digits(p.1 as nat);
        lemma_dec_digits(p.0 as nat);
        lemma_dec_digits(p.1 as nat);
        let l = dl + seq![32u8] + dr;
        assert(merges_block(ms) == merge_line(p) + merges_block(ms2));
        assert(data.skip(pos) =~= l + seq![10u8] + merges_block(ms2)) by {
            assert(merge_line(p) =~= l + seq![10u8]);
        }
        assert(!l.contains(10u8)) by {
            assert forall|i: int| 0 <= i < l.len() implies #[trigger] l[i] != 10u8 by {
                if i < dl.len() {
                    assert(l[i] == dl[i]);
                    assert(!dl.contains(10u8));
                } else if i == dl.len() {
                } else {
                    assert(l[i] == dr[i - dl.len() - 1]);
                    assert(!dr.contains(10u8));
                }
            }
        }
        lemma_spec_line_prefix(data, pos, l, merges_block(ms2));
        let pos2 = pos + l.len() + 1;
        assert(pos < data.len()) by {
            assert(data.skip(pos).len() > 0);
        }
        assert(parse_merge_line(l) == Ok::<(i32, i32), FormatError>(p)) by {
            assert(l[dl.len() as int] == 32u8);
            assert forall|i: int| 0 <= i < dl.len() implies l[i] != 32u8 by {
                assert(l[i] == dl[i]);
                assert(!dl.contains(32u8));
            }
            lemma_find_byte_in(l, 32u8, 0, dl.len() as int);
            assert(l.take(dl.len() as int) =~= dl);
            assert(l.skip(dl.len() as int + 1) =~= dr);
        }
        lemma_parse_merges_of_block(data, pos2, ms2);
        assert forall|k: int| 0 <= k < ms2.len() implies (#[trigger] ms2[k]) == ms[k + 1] by {}
        assert(seq![p] + ms2 =~= ms);
        assert(parse_merges(data, pos) == Ok::<Seq<(i32, i32)>, FormatError>(seq![p] + ms2));
    }
}

/// Persistence round trip: reading back the bytes that `format_model`
/// writes for a well-formed state reconstructs the same pattern, the same
/// special tokens, and the same merge table with its rank order intact.
#[verifier::rlimit(100)]
pub proof fn lemma_model_round_trip(
    pattern: Seq<char>,
    specials: Seq<(Seq<char>, i32)>,
    ms: Seq<(i32, i32)>,
)
    requires
        wf_model(encode_utf8(pattern), special_bytes(specials), ms),
        specials.len() <= usize::MAX,
    ensures
        parse_spec(model_bytes(encode_utf8(pattern), special_bytes(specials), ms)) == Ok::<
            (Seq<u8>, Seq<(Seq<u8>, i32)>, Seq<(i32, i32)>),
            FormatError,
        >((encode_utf8(pattern), special_bytes(specials), ms)),
{
    broadcast use vstd::utf8::encode_utf8_valid_utf8;

    let p = encode_utf8(pattern);
    let sp = special_bytes(specials);
    let data = model_bytes(p, sp, ms);
    let h = encode_utf8("minbpe v1"@);
    let cnt = dec_digits(sp.len());
    lemma_header_no_newline();
    lemma_dec_digits(sp.len());
    assert forall|j: int| 0 <= j < sp.len() implies valid_utf8((#[trigger] sp[j]).0) by {
        assert(sp[j] == (encode_utf8(specials[j].0), specials[j].1));
    }
    let rest1 = p + seq![10u8] + cnt + seq![10u8] + specials_block(sp) + merges_block(ms);
    assert(data.skip(0) =~= h + seq![10u8] + rest1);
    lemma_spec_line_prefix(data, 0, h, rest1);
    let pos1 = h.len() as int + 1;
    let rest2 = cnt + seq![10u8] + specials_block(sp) + merges_block(ms);
    assert(data.skip(pos1) =~= p + seq![10u8] + rest2);
    lemma_spec_line_prefix(data, pos1, p, rest2);
    let pos2 = pos1 + p.len() as int + 1;
    let rest3 = specials_block(sp) + merges_block(ms);
    assert(data.skip(pos2) =~= cnt + seq![10u8] + rest3);
    lemma_spec_line_prefix(data, pos2, cnt, rest3);
    let pos3 = pos2 + cnt.len() as int + 1;
    assert(data.skip(pos3) =~= specials_block(sp) + merges_block(ms));
    lemma_parse_specials_of_block(data, pos3, sp, merges_block(ms));
    let pos4 = pos3 + specials_block(sp).len() as int;
    lemma_parse_merges_of_block(data, pos4, ms);
    assert(dec_val(cnt) == sp.len());
}

/// The first position at or after `start` holding the byte `b`.
fn find_byte_from(data: &[u8], b: u8, start: usize) -> (r: Option<usize>)
    requires
        start <= data@.len(),
    ensures
        match r {
            Some(q) => find_byte(data@, b, start as int) == Some(q as int) && start <= q
                < data@.len(),
            None => find_byte(data@, b, start as int) is None,
        },
{
    let n = data.len();
    let mut i: usize = start;
    while i < n
        invariant
            start <= i <= n,
            n == data@.len(),
            find_byte(data@, b, start as int) == find_byte(data@, b, i as int),
        decreases n - i,
    {
        if data[i] == b {
            return Some(i);
        }
        i = i + 1;
    }
    None
}

/// The next line: its end index and the position past its newline.
fn read_line(data: &[u8], pos: usize) -> (r: Option<(usize, usize)>)
    requires
        pos <= data@.len(),
    ensures
        match r {
            Some(enp) => spec_line(data@, pos as int) == Some(
                (data@.subrange(pos as int, enp.0 as int), enp.1 as int),
            ) && pos <= enp.0 < enp.1 <= data@.len(),
            None => spec_line(data@, pos as int) is None,
        },
{
    let n = data.len();
    match find_byte_from(data, 10, pos) {
        Some(q) => {
            proof {
                assert(q < n);
            }
            Some((q, q + 1))
        },
        None => None,
    }
}

/// Whether two byte strings are equal.
fn bytes_eq(a: &[u8], b: &[u8]) -> (r: bool)
    ensures
        r == (a@ == b@),
{
    let n = a.len();
    if n != b.len() {
        proof {
            assert(a@ != b@);
        }
        return false;
    }
    let mut i: usize = 0;
    while i < n
        invariant
            i <= n,
            n == a@.len(),
            n == b@.len(),
            forall|j: int| 0 <= j < i ==> a@[j] == b@[j],
        decreases n - i,
    {
        if a[i] != b[i] {
            return false;
        }
        i = i + 1;
    }
    proof {
        assert(a@ =~= b@);
    }
    true
}

/// Value of `d.take(i + 1)` from the value of `d.take(i)`.
proof fn lemma_dec_val_take_step(d: Seq<u8>, i: int)
    requires
        0 <= i < d.len(),
    ensures
        dec_val(d.take(i + 1)) == dec_val(d.take(i)) * 10 + (d[i] - 48) as nat,
{
    assert(d.take(i + 1).drop_last() =~= d.take(i));
    assert(d.take(i + 1).last() == d[i]);
}

/// With digits everywhere, a longer prefix never has a smaller value.
proof fn lemma_dec_val_take_le(d: Seq<u8>, i: int)
    requires
        0 <= i <= d.len(),
        all_digits(d),
    ensures
        dec_val(d.take(i)) <= dec_val(d),
    decreases d.len() - i,
{
    if i < d.len() {
        lemma_dec_val_take_step(d, i);
        lemma_dec_val_take_le(d, i + 1);
    } else {
        assert(d.take(i) =~= d);
    }
}

/// Parse a canonical decimal numeral of value at most `max`; `None` exactly
/// otherwise.
fn parse_number(digits: &[u8], max: usize) -> (r: Option<usize>)
    ensures
        match r {
            Some(v) => is_canonical_number(digits@) && dec_val(digits@) <= max && v == dec_val(
                digits@,
            ),
            None => !(is_canonical_number(digits@) && dec_val(digits@) <= max),
        },
{
    let n = digits.len();
    if n == 0 {
        return None;
    }
    if n > 1 && digits[0] == 48 {
        return None;
    }
    let mut acc: usize = 0;
    let mut i: usize = 0;
    proof {
        assert(digits@.take(0) =~= Seq::<u8>::empty());
    }
    while i < n
        invariant
            i <= n,
            n == digits@.len(),
            n >= 1,
            n > 1 ==> digits@[0] != 48,
            all_digits(digits@.take(i as int)),
            acc == dec_val(digits@.take(i as int)),
            acc <= max,
        decreases n - i,
    {
        let d = digits[i];
        if d < 48 || d > 57 {
            proof {
                assert(!all_digits(digits@));
            }
            return None;
        }
        let dd = (d - 48) as usize;
        proof {
            vstd::arithmetic::div_mod::lemma_fundamental_div_mod(max as int, 10);
            lemma_dec_val_take_step(digits@, i as int);
        }
        if acc > max / 10 || (acc == max / 10 && dd > max % 10) {
            proof {
                assert(dec_val(digits@.take(i + 1)) > max);
                if all_digits(digits@) {
                    lemma_dec_val_take_le(digits@, i + 1);
                    assert(dec_val(digits@) > max);
                }
            }
            return None;
        }
        proof {
            assert(acc * 10 + dd <= max);
            assert forall|j: int| 0 <= j < i + 1 implies 48 <= #[trigger] digits@.take(i + 1)[j]
                <= 57 by {
                if j < i {
                    assert(digits@.take(i + 1)[j] == digits@.take(i as int)[j]);
                }
            }
        }
        acc = acc * 10 + dd;
        i = i + 1;
    }
    proof {
        assert(digits@.take(n as int) =~= digits@);
    }
    Some(acc)
}

/// The id bound, as a machine word.
fn i32_max_usize() -> (r: usize)
    ensures
        r == i32::MAX,
{
    i32::MAX as usize
}

/// Parse one special-token line.
fn parse_special_line_exec(line: &[u8]) -> (r: Result<(String, i32), FormatError>)
    ensures
        match (r, parse_special_line(line@)) {
            (Ok(e1), Ok(e2)) => encode_utf8(e1.0@) == e2.0 && e1.1 == e2.1,
            (Err(e1), Err(e2)) => e1 == e2,
            _ => false,
        },
{
    broadcast use vstd::utf8::decode_utf8_encode_utf8;

    match find_byte_from(line, 32, 0) {
        None => Err(FormatError::BadLine),
        Some(q) => {
            let n = line.len();
            proof {
                assert(q < n);
            }
            let name_bytes = vstd::slice::slice_subrange(line, 0, q);
            let digits = vstd::slice::slice_subrange(line, q + 1, n);
            proof {
                assert(name_bytes@ =~= line@.take(q as int));
                assert(digits@ =~= line@.skip(q + 1));
            }
            if name_bytes.len() == 0 {
                return Err(FormatError::BadLine);
            }
            match crate::base::bytes_as_str(name_bytes) {
                None => Err(FormatError::BadText),
                Some(s) => {
                    match parse_number(digits, i32_max_usize()) {
                        None => Err(FormatError::BadNumber),
                        Some(v) => {
                            let name = String::from_str(s);
                            Ok((name, v as i32))
                        },
                    }
                },
            }
        },
    }
}

/// Parse one merge line.
fn parse_merge_line_exec(line: &[u8]) -> (r: Result<(i32, i32), FormatError>)
    ensures
        match (r, parse_merge_line(line@)) {
            (Ok(p1), Ok(p2)) => p1 == p2,
            (Err(e1), Err(e2)) => e1 == e2,
            _ => false,
        },
{
    match find_byte_from(line, 32, 0) {
        None => Err(FormatError::BadLine),
        Some(q) => {
            let n = line.len();
            proof {
                assert(q < n);
            }
            let left = vstd::slice::slice_subrange(line, 0, q);
            let right = vstd::slice::slice_subrange(line, q + 1, n);
            proof {
                assert(left@ =~= line@.take(q as int));
                assert(right@ =~= line@.skip(q + 1));
            }
            match parse_number(left, i32_max_usize()) {
                None => Err(FormatError::BadNumber),
                Some(l) => match parse_number(right, i32_max_usize()) {
                    None => Err(FormatError::BadNumber),
                    Some(r2) => Ok((l as i32, r2 as i32)),
                },
            }
        },
    }
}

/// Read a model file back, strictly: the exact lines the format writes, a
/// newline after every line, canonical numerals, nothing after the last
/// merge line. The result is exactly what the structural reading of the
/// bytes gives, error for error.
pub fn parse_model(data: &[u8]) -> (r: Result<Model, FormatError>)
    ensures
        match (r, parse_spec(data@)) {
            (Ok(m), Ok(t)) => {
                &&& encode_utf8(m.pattern@) == t.0
                &&& special_bytes(m.special_tokens.deep_view()) == t.1
                &&& m.merges@ == t.2
            },
            (Err(e1), Err(e2)) => e1 == e2,
            _ => false,
        },
{
    broadcast use vstd::utf8::decode_utf8_encode_utf8;

    let header = read_line(data, 0);
    let l0 = match header {
        Some(l) => l,
        None => {
            return Err(FormatError::Truncated);
        },
    };
    let version = vstd::slice::slice_subrange(data, 0, l0.0);
    if !bytes_eq(version, "minbpe v1".as_bytes()) {
        return Err(FormatError::BadVersion);
    }
    let l1 = match read_line(data, l0.1) {
        Some(l) => l,
        None => {
            return Err(FormatError::Truncated);
        },
    };
    let pattern_bytes = vstd::slice::slice_subrange(data, l0.1, l1.0);
    proof {
        assert(pattern_bytes@ =~= data@.subrange(l0.1 as int, l1.0 as int));
    }
    let pattern = match crate::base::bytes_as_str(pattern_bytes) {
        Some(s) => String::from_str(s),
        None => {
            return Err(FormatError::BadText);
        },
    };
    let l2 = match read_line(data, l1.1) {
        Some(l) => l,
        None => {
            return Err(FormatError::Truncated);
        },
    };
    let count_bytes = vstd::slice::slice_subrange(data, l1.1, l2.0);
    proof {
        assert(count_bytes@ =~= data@.subrange(l1.1 as int, l2.0 as int));
    }
    let count = match parse_number(count_bytes, usize::MAX) {
        Some(v) => v,
        None => {
            return Err(FormatError::BadNumber);
        },
    };
    let mut specials: Vec<(String, i32)> = Vec::new();
    let mut pos: usize = l2.1;
    let mut done: usize = 0;
    proof {
        assert(special_bytes(specials.deep_view()) =~= Seq::<(Seq<u8>, i32)>::empty());
        assert(encode_utf8(pattern@) == data@.subrange(l0.1 as int, l1.0 as int));
        match parse_specials(data@, l2.1 as int, count as nat) {
            Err(e) => {},
            Ok(rest) => {
                assert(Seq::<(Seq<u8>, i32)>::empty() + rest.0 =~= rest.0);
            },
        }
    }
    while done < count
        invariant
            done <= count,
            pos <= data@.len(),
            (match parse_specials(data@, pos as int, (count - done) as nat) {
                Err(e) => parse_spec(data@) == Err::<
                    (Seq<u8>, Seq<(Seq<u8>, i32)>, Seq<(i32, i32)>),
                    FormatError,
                >(e),
                Ok(rest) => (match parse_merges(data@, rest.1) {
                    Err(e) => parse_spec(data@) == Err::<
                        (Seq<u8>, Seq<(Seq<u8>, i32)>, Seq<(i32, i32)>),
                        FormatError,
                    >(e),
                    Ok(ms) => parse_spec(data@) == Ok::<
                        (Seq<u8>, Seq<(Seq<u8>, i32)>, Seq<(i32, i32)>),
                        FormatError,
                    >(
                        (
                            encode_utf8(pattern@),
                            special_bytes(specials.deep_view()) + rest.0,
                            ms,
                        ),
                    ),
                }),
            }),
        decreases count - done,
    {
        let ghost rem = (count - done) as nat;
        let ghost spd0 = special_bytes(specials.deep_view());
        let ghost dv0 = specials.deep_view();
        let ghost vshallow0 = specials@;
        let le = match read_line(data, pos) {
            Some(l) => l,
            None => {
                return Err(FormatError::Truncated);
            },
        };
        let line = vstd::slice::slice_subrange(data, pos, le.0);
        proof {
            assert(line@ =~= data@.subrange(pos as int, le.0 as int));
        }
        let entry = match parse_special_line_exec(line) {
            Ok(e) => e,
            Err(e) => {
                return Err(e);
            },
        };
        let ghost entry_spec = (encode_utf8(entry.0@), entry.1);
        proof {
            assert(parse_special_line(line@) == Ok::<(Seq<u8>, i32), FormatError>(entry_spec));
        }
        specials.push(entry);
        proof {
            assert(specials.deep_view() =~= dv0.push((entry.0@, entry.1))) by {
                assert forall|j: int| 0 <= j < dv0.len() implies specials.deep_view()[j] == dv0[j]
                by {
                    assert(specials@[j] == vshallow0[j]);
                }
                assert(specials@[dv0.len() as int] == entry);
            }
            assert(special_bytes(specials.deep_view()) =~= spd0.push(entry_spec)) by {
                assert(specials.deep_view() == dv0.push((entry.0@, entry.1)));
                assert forall|j: int| 0 <= j < spd0.len() implies special_bytes(
                    specials.deep_view(),
                )[j] == spd0[j] by {
                    assert(dv0.push((entry.0@, entry.1))[j] == dv0[j]);
                }
                assert(dv0.push((entry.0@, entry.1))[dv0.len() as int] == (entry.0@, entry.1));
            }
            match parse_specials(data@, le.1 as int, (rem - 1) as nat) {
                Err(e) => {},
                Ok(rest2) => {
                    assert(parse_specials(data@, pos as int, rem) == Ok::<
                        (Seq<(Seq<u8>, i32)>, int),
                        FormatError,
                    >((seq![entry_spec] + rest2.0, rest2.1)));
                    assert(spd0 + (seq![entry_spec] + rest2.0) =~= spd0.push(entry_spec)
                        + rest2.0);
                },
            }
        }
        pos = le.1;
        done = done + 1;
    }
    let ghost spd = special_bytes(specials.deep_view());
    proof {
        assert(parse_specials(data@, pos as int, 0) == Ok::<(Seq<(Seq<u8>, i32)>, int), FormatError>(
            (Seq::<(Seq<u8>, i32)>::empty(), pos as int),
        ));
        assert(spd + Seq::<(Seq<u8>, i32)>::empty() =~= spd);
    }
    let mut merges: Vec<(i32, i32)> = Vec::new();
    let n = data.len();
    while pos < n
        invariant
            pos <= n,
            n == data@.len(),
            spd == special_bytes(specials.deep_view()),
            (match parse_merges(data@, pos as int) {
                Err(e) => parse_spec(data@) == Err::<
                    (Seq<u8>, Seq<(Seq<u8>, i32)>, Seq<(i32, i32)>),
                    FormatError,
                >(e),
                Ok(rest) => parse_spec(data@) == Ok::<
                    (Seq<u8>, Seq<(Seq<u8>, i32)>, Seq<(i32, i32)>),
                    FormatError,
                >((encode_utf8(pattern@), spd, merges@ + rest)),
            }),
        decreases n - pos,
    {
        let ghost m0 = merges@;
        let le = match read_line(data, pos) {
            Some(l) => l,
            None => {
                return Err(FormatError::Truncated);
            },
        };
        let line = vstd::slice::slice_subrange(data, pos, le.0);
        proof {
            assert(line@ =~= data@.subrange(pos as int, le.0 as int));
        }
        let p = match parse_merge_line_exec(line) {
            Ok(p) => p,
            Err(e) => {
                return Err(e);
            },
        };
        merges.push(p);
        proof {
            match parse_merges(data@, le.1 as int) {
                Err(e) => {},
                Ok(rest2) => {
                    assert(parse_merges(data@, pos as int) == Ok::<Seq<(i32, i32)>, FormatError>(
                        seq![p] + rest2,
                    ));
                    assert(m0 + (seq![p] + rest2) =~= m0.push(p) + rest2);
                },
            }
        }
        pos = le.1;
    }
    proof {
        assert(parse_merges(data@, pos as int) == Ok::<Seq<(i32, i32)>, FormatError>(
            Seq::<(i32, i32)>::empty(),
        ));
        assert(merges@ + Seq::<(i32, i32)>::empty() =~= merges@);
    }
    Ok(Model { pattern, special_tokens: specials, merges })
}

} // verus!
