//! The canonical persisted form of an entity record, framed by the library
//! as bytes: compact JSON with the field names preserved, suitable for
//! manual inspection. The encoder accepts "plain" text — printable ASCII
//! without quote or backslash, so no escaping is ever needed — and refuses
//! anything else rather than emit bytes its specification does not pin
//! down. Reading the files back is the caller's step.

use vstd::assert_by_contradiction;
use vstd::prelude::*;

use crate::items::InventoryItem;
use crate::record::EntityRecord;

verus! {

/// A character the canonical form stores as its own byte: printable ASCII,
/// no quote, no backslash.
pub open spec fn plain_char(c: char) -> bool {
    ' ' <= c <= '~' && c != '"' && c != '\\'
}

/// Text made of plain characters only.
pub open spec fn plain_text(s: Seq<char>) -> bool {
    forall|i: int| 0 <= i < s.len() ==> plain_char(#[trigger] s[i])
}

/// Plain text as bytes: each character is its own byte.
pub open spec fn enc_str(s: Seq<char>) -> Seq<u8> {
    Seq::new(s.len(), |i: int| s[i] as u8)
}

/// A quantity in decimal, most significant digit first, no leading zeros.
pub open spec fn dec_of(n: nat) -> Seq<u8>
    decreases n,
{
    if n < 10 {
        seq![(48 + n) as u8]
    } else {
        dec_of(n / 10).push((48 + n % 10) as u8)
    }
}

/// The bytes `{"key":"`.
pub open spec fn lit_key() -> Seq<u8> {
    seq![('{' as u8), ('"' as u8), ('k' as u8), ('e' as u8), ('y' as u8), ('"' as u8), (':' as u8), ('"' as u8)]
}

/// The bytes `","kind":"`.
pub open spec fn lit_kind() -> Seq<u8> {
    seq![('"' as u8), (',' as u8), ('"' as u8), ('k' as u8), ('i' as u8), ('n' as u8), ('d' as u8), ('"' as u8), (':' as u8), ('"' as u8)]
}

/// The bytes `","items":[`.
pub open spec fn lit_items() -> Seq<u8> {
    seq![('"' as u8), (',' as u8), ('"' as u8), ('i' as u8), ('t' as u8), ('e' as u8), ('m' as u8), ('s' as u8), ('"' as u8), (':' as u8), ('[' as u8)]
}

/// The bytes `{"id":"`.
pub open spec fn lit_id() -> Seq<u8> {
    seq![('{' as u8), ('"' as u8), ('i' as u8), ('d' as u8), ('"' as u8), (':' as u8), ('"' as u8)]
}

/// The bytes `","quantity":`.
pub open spec fn lit_quantity() -> Seq<u8> {
    seq![('"' as u8), (',' as u8), ('"' as u8), ('q' as u8), ('u' as u8), ('a' as u8), ('n' as u8), ('t' as u8), ('i' as u8), ('t' as u8), ('y' as u8), ('"' as u8), (':' as u8)]
}

/// The bytes `,"stackable":`.
pub open spec fn lit_stackable() -> Seq<u8> {
    seq![(',' as u8), ('"' as u8), ('s' as u8), ('t' as u8), ('a' as u8), ('c' as u8), ('k' as u8), ('a' as u8), ('b' as u8), ('l' as u8), ('e' as u8), ('"' as u8), (':' as u8)]
}

/// The bytes `true`.
pub open spec fn lit_true() -> Seq<u8> {
    seq![('t' as u8), ('r' as u8), ('u' as u8), ('e' as u8)]
}

/// The bytes `false`.
pub open spec fn lit_false() -> Seq<u8> {
    seq![('f' as u8), ('a' as u8), ('l' as u8), ('s' as u8), ('e' as u8)]
}

/// The bytes `]}`.
pub open spec fn lit_end() -> Seq<u8> {
    seq![(']' as u8), ('}' as u8)]
}

/// One stack in canonical form.
pub open spec fn enc_item(it: InventoryItem) -> Seq<u8> {
    lit_id() + enc_str(it.id@) + lit_quantity() + dec_of(it.quantity as nat) + lit_stackable() + (
    if it.stackable {
        lit_true()
    } else {
        lit_false()
    }) + seq![('}' as u8)]
}

/// A stack list in canonical form, comma separated.
pub open spec fn enc_items(items: Seq<InventoryItem>) -> Seq<u8>
    decreases items.len(),
{
    if items.len() == 0 {
        Seq::<u8>::empty()
    } else if items.len() == 1 {
        enc_item(items[0])
    } else {
        enc_items(items.drop_last()) + seq![(',' as u8)] + enc_item(items.last())
    }
}

/// A whole record in canonical form.
pub open spec fn enc_record(rec: EntityRecord) -> Seq<u8> {
    lit_key() + enc_str(rec.key@) + lit_kind() + enc_str(rec.kind@) + lit_items() + enc_items(
        rec.items@,
    ) + lit_end()
}

/// Whether every string of the record is plain, so that the canonical form
/// can hold it.
pub open spec fn rec_plain(rec: EntityRecord) -> bool {
    &&& plain_text(rec.key@)
    &&& plain_text(rec.kind@)
    &&& forall|i: int| 0 <= i < rec.items@.len() ==> plain_text((#[trigger] rec.items@[i]).id@)
}

/// Appending one element is concatenation with a one-element sequence.
proof fn lemma_push_is_append<A>(s: Seq<A>, x: A)
    ensures
        s.push(x) == s + seq![x],
{
    assert(s.push(x) =~= s + seq![x]);
}

fn push_byte(out: &mut Vec<u8>, b: u8)
    ensures
        final(out)@ == old(out)@ + seq![b],
{
    out.push(b);
    proof {
        lemma_push_is_append(old(out)@, b);
    }
}

fn push_lit_key(out: &mut Vec<u8>)
    ensures
        final(out)@ == old(out)@ + lit_key(),
{
    let ghost base = out@;
    out.push(('{' as u8));
    out.push(('"' as u8));
    out.push(('k' as u8));
    out.push(('e' as u8));
    out.push(('y' as u8));
    out.push(('"' as u8));
    out.push((':' as u8));
    out.push(('"' as u8));
    proof {
        assert(out@ =~= base + lit_key());
    }
}

fn push_lit_kind(out: &mut Vec<u8>)
    ensures
        final(out)@ == old(out)@ + lit_kind(),
{
    let ghost base = out@;
    out.push(('"' as u8));
    out.push((',' as u8));
    out.push(('"' as u8));
    out.push(('k' as u8));
    out.push(('i' as u8));
    out.push(('n' as u8));
    out.push(('d' as u8));
    out.push(('"' as u8));
    out.push((':' as u8));
    out.push(('"' as u8));
    proof {
        assert(out@ =~= base + lit_kind());
    }
}

fn push_lit_items(out: &mut Vec<u8>)
    ensures
        final(out)@ == old(out)@ + lit_items(),
{
    let ghost base = out@;
    out.push(('"' as u8));
    out.push((',' as u8));
    out.push(('"' as u8));
    out.push(('i' as u8));
    out.push(('t' as u8));
    out.push(('e' as u8));
    out.push(('m' as u8));
    out.push(('s' as u8));
    out.push(('"' as u8));
    out.push((':' as u8));
    out.push(('[' as u8));
    proof {
        assert(out@ =~= base + lit_items());
    }
}

fn push_lit_id(out: &mut Vec<u8>)
    ensures
        final(out)@ == old(out)@ + lit_id(),
{
    let ghost base = out@;
    out.push(('{' as u8));
    out.push(('"' as u8));
    out.push(('i' as u8));
    out.push(('d' as u8));
    out.push(('"' as u8));
    out.push((':' as u8));
    out.push(('"' as u8));
    proof {
        assert(out@ =~= base + lit_id());
    }
}

fn push_lit_quantity(out: &mut Vec<u8>)
    ensures
        final(out)@ == old(out)@ + lit_quantity(),
{
    let ghost base = out@;
    out.push(('"' as u8));
    out.push((',' as u8));
    out.push(('"' as u8));
    out.push(('q' as u8));
    out.push(('u' as u8));
    out.push(('a' as u8));
    out.push(('n' as u8));
    out.push(('t' as u8));
    out.push(('i' as u8));
    out.push(('t' as u8));
    out.push(('y' as u8));
    out.push(('"' as u8));
    out.push((':' as u8));
    proof {
        assert(out@ =~= base + lit_quantity());
    }
}

fn push_lit_stackable(out: &mut Vec<u8>)
    ensures
        final(out)@ == old(out)@ + lit_stackable(),
{
    let ghost base = out@;
    out.push((',' as u8));
    out.push(('"' as u8));
    out.push(('s' as u8));
    out.push(('t' as u8));
    out.push(('a' as u8));
    out.push(('c' as u8));
    out.push(('k' as u8));
    out.push(('a' as u8));
    out.push(('b' as u8));
    out.push(('l' as u8));
    out.push(('e' as u8));
    out.push(('"' as u8));
    out.push((':' as u8));
    proof {
        assert(out@ =~= base + lit_stackable());
    }
}

fn push_lit_bool(out: &mut Vec<u8>, b: bool)
    ensures
        final(out)@ == old(out)@ + (if b {
            lit_true()
        } else {
            lit_false()
        }),
{
    let ghost base = out@;
    if b {
        out.push(('t' as u8));
        out.push(('r' as u8));
        out.push(('u' as u8));
        out.push(('e' as u8));
        proof {
            assert(out@ =~= base + lit_true());
        }
    } else {
        out.push(('f' as u8));
        out.push(('a' as u8));
        out.push(('l' as u8));
        out.push(('s' as u8));
        out.push(('e' as u8));
        proof {
            assert(out@ =~= base + lit_false());
        }
    }
}

fn push_lit_end(out: &mut Vec<u8>)
    ensures
        final(out)@ == old(out)@ + lit_end(),
{
    let ghost base = out@;
    out.push((']' as u8));
    out.push(('}' as u8));
    proof {
        assert(out@ =~= base + lit_end());
    }
}

fn push_dec(out: &mut Vec<u8>, n: u32)
    ensures
        final(out)@ == old(out)@ + dec_of(n as nat),
    decreases n,
{
    if n < 10 {
        out.push(48 + (n as u8));
        proof {
            lemma_push_is_append(old(out)@, (48 + n) as u8);
        }
    } else {
        push_dec(out, n / 10);
        let d: u8 = (n % 10) as u8;
        out.push(48 + d);
        proof {
            lemma_push_is_append(old(out)@ + dec_of((n / 10) as nat), (48 + (n % 10) as nat) as u8);
            assert((old(out)@ + dec_of((n / 10) as nat)) + seq![(48 + (n % 10) as nat) as u8]
                =~= old(out)@ + dec_of(n as nat));
        }
    }
}

/// Whether every character of the text is plain, decided at run time.
fn str_is_plain(s: &str) -> (b: bool)
    ensures
        b == plain_text(s@),
{
    if !s.is_ascii() {
        proof {
            assert_by_contradiction!(!plain_text(s@), {
                assert forall|i: int| 0 <= i < s@.len() implies '\0' <= #[trigger] s@[i]
                    <= '\u{7f}' by {
                    assert(plain_char(s@[i]));
                }
            });
        }
        return false;
    }
    proof {
        vstd::string::is_ascii_spec_bytes(s);
    }
    let bytes: &[u8] = s.as_bytes();
    let n: usize = bytes.len();
    let mut i: usize = 0;
    while i < n
        invariant
            n == bytes@.len(),
            bytes@.len() == s@.len(),
            forall|k: int| 0 <= k < n ==> #[trigger] bytes@[k] == s@[k] as u8,
            forall|k: int| 0 <= k < n ==> '\0' <= #[trigger] s@[k] <= '\u{7f}',
            i <= n,
            forall|k: int| 0 <= k < i ==> plain_char(#[trigger] s@[k]),
        decreases n - i,
    {
        let b: u8 = bytes[i];
        if b < 32 || b > 126 || b == 34 || b == 92 {
            proof {
                assert(!plain_char(s@[i as int]));
            }
            return false;
        }
        proof {
            assert(plain_char(s@[i as int]));
        }
        i = i + 1;
    }
    true
}

fn push_plain_str(out: &mut Vec<u8>, s: &str)
    requires
        plain_text(s@),
    ensures
        final(out)@ == old(out)@ + enc_str(s@),
{
    proof {
        assert forall|i: int| 0 <= i < s@.len() implies '\0' <= #[trigger] s@[i] <= '\u{7f}' by {
            assert(plain_char(s@[i]));
        }
        vstd::string::is_ascii_spec_bytes(s);
    }
    let bytes: &[u8] = s.as_bytes();
    let ghost base = out@;
    let n: usize = bytes.len();
    let mut i: usize = 0;
    while i < n
        invariant
            n == bytes@.len(),
            bytes@.len() == s@.len(),
            forall|k: int| 0 <= k < n ==> #[trigger] bytes@[k] == s@[k] as u8,
            i <= n,
            out@ == base + enc_str(s@).take(i as int),
        decreases n - i,
    {
        out.push(bytes[i]);
        proof {
            assert(out@ =~= base + enc_str(s@).take(i + 1));
        }
        i = i + 1;
    }
    proof {
        assert(enc_str(s@).take(n as int) =~= enc_str(s@));
    }
}

fn push_item(out: &mut Vec<u8>, it: &InventoryItem)
    requires
        plain_text(it.id@),
    ensures
        final(out)@ == old(out)@ + enc_item(*it),
{
    push_lit_id(out);
    push_plain_str(out, it.id.as_str());
    push_lit_quantity(out);
    push_dec(out, it.quantity);
    push_lit_stackable(out);
    push_lit_bool(out, it.stackable);
    push_byte(out, ('}' as u8));
}

fn push_items(out: &mut Vec<u8>, items: &Vec<InventoryItem>)
    requires
        forall|k: int| 0 <= k < items@.len() ==> plain_text((#[trigger] items@[k]).id@),
    ensures
        final(out)@ == old(out)@ + enc_items(items@),
{
    let ghost base = out@;
    let n: usize = items.len();
    let mut i: usize = 0;
    while i < n
        invariant
            n == items@.len(),
            forall|k: int| 0 <= k < n ==> plain_text((#[trigger] items@[k]).id@),
            i <= n,
            out@ == base + enc_items(items@.take(i as int)),
        decreases n - i,
    {
        if i > 0 {
            push_byte(out, (',' as u8));
        }
        push_item(out, &items[i]);
        proof {
            let taken = items@.take(i + 1);
            assert(taken.drop_last() =~= items@.take(i as int));
            assert(taken.last() == items@[i as int]);
            if i == 0 {
                assert(enc_items(taken) == enc_item(items@[0]));
                assert(out@ =~= base + enc_items(taken));
            } else {
                assert(enc_items(taken) == enc_items(items@.take(i as int)) + seq![(',' as u8)]
                    + enc_item(items@[i as int]));
                assert(out@ =~= base + enc_items(taken));
            }
        }
        i = i + 1;
    }
    proof {
        assert(items@.take(n as int) =~= items@);
    }
}

/// The numeric value of a run of decimal digit bytes.
pub open spec fn digits_val(ds: Seq<u8>) -> int
    decreases ds.len(),
{
    if ds.len() == 0 {
        0
    } else {
        digits_val(ds.drop_last()) * 10 + (ds.last() - 48)
    }
}

/// A canonical digit run: nonempty, decimal digits, no leading zero.
pub open spec fn digits_wf(ds: Seq<u8>) -> bool {
    &&& ds.len() > 0
    &&& forall|i: int| 0 <= i < ds.len() ==> 48 <= #[trigger] ds[i] <= 57
    &&& (ds.len() > 1 ==> ds[0] != 48)
}

/// A canonical digit run denotes its value: reading it back gives exactly
/// the bytes `dec_of` writes.
proof fn lemma_dec_of_digits(ds: Seq<u8>)
    requires
        digits_wf(ds),
    ensures
        digits_val(ds) >= 0,
        ds.len() > 1 ==> digits_val(ds) >= 10,
        dec_of(digits_val(ds) as nat) == ds,
    decreases ds.len(),
{
    if ds.len() == 1 {
        assert(48 <= ds[0] <= 57);
        assert(ds.drop_last() =~= Seq::<u8>::empty());
        assert(digits_val(Seq::<u8>::empty()) == 0);
        assert(digits_val(ds) == ds[0] - 48);
        assert(dec_of(digits_val(ds) as nat) =~= ds);
    } else {
        let pre = ds.drop_last();
        assert(digits_wf(pre));
        lemma_dec_of_digits(pre);
        let pv = digits_val(pre);
        let d: int = ds.last() - 48;
        let v = digits_val(ds);
        assert(pv >= 1);
        assert(v == pv * 10 + d);
        assert(v >= 10 && v / 10 == pv && v % 10 == d) by (nonlinear_arith)
            requires
                v == pv * 10 + d,
                pv >= 1,
                0 <= d < 10,
        {}
        assert(dec_of(v as nat) == dec_of(pv as nat).push((48 + v % 10) as u8));
        assert(dec_of(v as nat) =~= ds);
    }
}

/// Relies on `String::from_utf8`: ASCII bytes are valid UTF-8 and decode
/// to exactly those characters, one per byte.
#[verifier::external_body]
fn ascii_to_string(bytes: Vec<u8>) -> (r: String)
    requires
        forall|i: int| 0 <= i < bytes@.len() ==> bytes@[i] < 128,
    ensures
        r@ == bytes@.map_values(|b: u8| b as char),
{
    String::from_utf8(bytes).unwrap_or_default()
}

/// Advance past `lit` at `pos`, or refuse: a returned position means those
/// bytes were exactly `lit`.
fn eat(bytes: &[u8], pos: usize, lit: &Vec<u8>) -> (r: Option<usize>)
    requires
        pos <= bytes@.len(),
    ensures
        r matches Some(p) ==> p == pos + lit@.len() && p <= bytes@.len() && bytes@.subrange(
            pos as int,
            p as int,
        ) == lit@,
        r is None ==> !(pos + lit@.len() <= bytes@.len() && bytes@.subrange(
            pos as int,
            pos as int + lit@.len() as int,
        ) == lit@),
{
    let n: usize = lit.len();
    if bytes.len() - pos < n {
        return None;
    }
    let end: usize = pos + n;
    let mut i: usize = 0;
    let mut j: usize = pos;
    while i < n
        invariant
            i <= n,
            j == pos + i,
            n == lit@.len(),
            end == pos + n,
            pos + n <= bytes@.len(),
            forall|k: int| 0 <= k < i ==> #[trigger] bytes@[pos + k] == lit@[k],
        decreases n - i,
    {
        if bytes[j] != lit[i] {
            proof {
                if pos + lit@.len() <= bytes@.len() && bytes@.subrange(
                    pos as int,
                    pos as int + lit@.len() as int,
                ) == lit@ {
                    assert(bytes@.subrange(pos as int, pos as int + lit@.len() as int)[i as int]
                        == bytes@[pos + i]);
                    assert(false);
                }
            }
            return None;
        }
        i = i + 1;
        j = j + 1;
    }
    proof {
        assert forall|k: int|
            0 <= k < n implies bytes@.subrange(pos as int, (pos + n) as int)[k] == lit@[k] by {
            assert(bytes@[pos + k] == lit@[k]);
        }
        assert(bytes@.subrange(pos as int, (pos + n) as int) =~= lit@);
    }
    Some(end)
}

/// Read plain text at `pos` up to (not including) the next quote: a
/// returned string means the bytes read were exactly its plain characters.
fn parse_string(bytes: &[u8], pos: usize) -> (r: Option<(String, usize)>)
    requires
        pos <= bytes@.len(),
    ensures
        r matches Some((s, p)) ==> pos <= p <= bytes@.len() && plain_text(s@) && bytes@.subrange(
            pos as int,
            p as int,
        ) == enc_str(s@),
        r matches Some((s, p)) ==> p < bytes@.len() && bytes@[p as int] == 34 && (forall|k: int|
            pos <= k < p ==> byte_plain(#[trigger] bytes@[k])),
        r is None ==> !quote_terminated(bytes@, pos as int),
{
    let mut collected: Vec<u8> = Vec::new();
    let mut p: usize = pos;
    loop
        invariant
            pos <= p <= bytes@.len(),
            collected@ == bytes@.subrange(pos as int, p as int),
            forall|k: int| pos <= k < p ==> byte_plain(#[trigger] bytes@[k]),
        decreases bytes@.len() - p,
    {
        if p >= bytes.len() {
            proof {
                if quote_terminated(bytes@, pos as int) {
                    let e = choose|e: int|
                        pos <= e < bytes@.len() && (#[trigger] bytes@[e]) == 34 && (forall|k: int|
                            pos <= k < e ==> byte_plain(#[trigger] bytes@[k]));
                    assert(byte_plain(bytes@[e]));
                    assert(false);
                }
            }
            return None;
        }
        let b: u8 = bytes[p];
        if b == 34 {
            let ghost taken = collected@;
            proof {
                assert forall|k: int| 0 <= k < taken.len() implies taken[k] < 128 by {
                    assert(byte_plain(bytes@[pos + k]));
                }
            }
            let s = ascii_to_string(collected);
            proof {
                assert(s@ =~= taken.map_values(|x: u8| x as char));
                assert forall|k: int| 0 <= k < s@.len() implies plain_char(#[trigger] s@[k]) by {
                    assert(byte_plain(bytes@[pos + k]));
                    assert(s@[k] == taken[k] as char);
                }
                assert(bytes@.subrange(pos as int, p as int) =~= enc_str(s@));
            }
            return Some((s, p));
        }
        if b < 32 || b > 126 || b == 92 {
            proof {
                if quote_terminated(bytes@, pos as int) {
                    let e = choose|e: int|
                        pos <= e < bytes@.len() && (#[trigger] bytes@[e]) == 34 && (forall|k: int|
                            pos <= k < e ==> byte_plain(#[trigger] bytes@[k]));
                    if e < p {
                        assert(byte_plain(bytes@[e]));
                    }
                    if e > p {
                        assert(byte_plain(bytes@[p as int]));
                    }
                    assert(false);
                }
            }
            return None;
        }
        collected.push(b);
        proof {
            assert(collected@ =~= bytes@.subrange(pos as int, (p + 1) as int));
        }
        p = p + 1;
    }
}

/// Read a canonical decimal quantity at `pos`: a returned value means the
/// bytes read were exactly `dec_of` of it.
#[verifier::rlimit(100)]
fn parse_u32(bytes: &[u8], pos: usize) -> (r: Option<(u32, usize)>)
    requires
        pos <= bytes@.len(),
    ensures
        r matches Some((v, p)) ==> pos < p <= bytes@.len() && bytes@.subrange(
            pos as int,
            p as int,
        ) == dec_of(v as nat),
        r matches Some((v, p)) ==> (p as int == bytes@.len() || !(48 <= bytes@[p as int] <= 57))
            && (forall|k: int| pos <= k < p ==> 48 <= #[trigger] bytes@[k] <= 57),
        r is None ==> forall|v: u32| !(#[trigger] number_at(bytes@, pos as int, v)),
{
    if pos >= bytes.len() {
        proof {
            assert forall|v: u32| !(#[trigger] number_at(bytes@, pos as int, v)) by {
                lemma_dec_of_digits_range(v as nat);
            }
        }
        return None;
    }
    let b0: u8 = bytes[pos];
    if b0 < 48 || b0 > 57 {
        proof {
            assert forall|v: u32| !(#[trigger] number_at(bytes@, pos as int, v)) by {
                if number_at(bytes@, pos as int, v) {
                    lemma_dec_of_digits_range(v as nat);
                    assert(bytes@.subrange(
                        pos as int,
                        pos as int + dec_of(v as nat).len() as int,
                    )[0] == bytes@[pos as int]);
                }
            }
        }
        return None;
    }
    if b0 == 48 {
        if pos + 1 < bytes.len() {
            let b1: u8 = bytes[pos + 1];
            if 48 <= b1 && b1 <= 57 {
                proof {
                    assert forall|v: u32| !(#[trigger] number_at(bytes@, pos as int, v)) by {
                        if number_at(bytes@, pos as int, v) {
                            lemma_dec_of_digits_range(v as nat);
                            lemma_dec_of_leading(v as nat);
                            assert(bytes@.subrange(
                                pos as int,
                                pos as int + dec_of(v as nat).len() as int,
                            )[0] == bytes@[pos as int]);
                            assert(v == 0);
                            assert(dec_of(0).len() == 1);
                            assert(false);
                        }
                    }
                }
                return None;
            }
        }
        proof {
            assert(bytes@.subrange(pos as int, (pos + 1) as int) =~= dec_of(0));
        }
        return Some((0, pos + 1));
    }
    let mut val: u32 = (b0 - 48) as u32;
    let mut p: usize = pos + 1;
    proof {
        assert(bytes@.subrange(pos as int, (pos + 1) as int) =~= seq![b0]);
        assert(seq![b0].drop_last() =~= Seq::<u8>::empty());
        assert(digits_val(Seq::<u8>::empty()) == 0);
        assert(digits_val(seq![b0]) == b0 - 48);
    }
    loop
        invariant
            pos < p <= bytes@.len(),
            bytes@[pos as int] != 48,
            digits_wf(bytes@.subrange(pos as int, p as int)),
            val as int == digits_val(bytes@.subrange(pos as int, p as int)),
        decreases bytes@.len() - p,
    {
        if p >= bytes.len() {
            proof {
                lemma_dec_of_digits(bytes@.subrange(pos as int, p as int));
                assert forall|k: int| pos <= k < p implies 48 <= #[trigger] bytes@[k] <= 57 by {
                    assert(bytes@.subrange(pos as int, p as int)[k - pos] == bytes@[k]);
                }
            }
            return Some((val, p));
        }
        let b: u8 = bytes[p];
        if b < 48 || b > 57 {
            proof {
                lemma_dec_of_digits(bytes@.subrange(pos as int, p as int));
                assert forall|k: int| pos <= k < p implies 48 <= #[trigger] bytes@[k] <= 57 by {
                    assert(bytes@.subrange(pos as int, p as int)[k - pos] == bytes@[k]);
                }
            }
            return Some((val, p));
        }
        let d: u32 = (b - 48) as u32;
        if val > (u32::MAX - d) / 10 {
            proof {
                assert(val * 10 + d > u32::MAX) by (nonlinear_arith)
                    requires
                        val > (u32::MAX - d) / 10,
                        d <= 9,
                {}
                assert forall|k: int| pos <= k < p implies 48 <= #[trigger] bytes@[k] <= 57 by {
                    assert(bytes@.subrange(pos as int, p as int)[k - pos] == bytes@[k]);
                }
                assert forall|v: u32| !(#[trigger] number_at(bytes@, pos as int, v)) by {
                    if number_at(bytes@, pos as int, v) {
                        lemma_dec_of_digits_range(v as nat);
                        let dv = dec_of(v as nat);
                        let ev = pos as int + dv.len() as int;
                        assert forall|k2: int| 0 <= k2 < dv.len() implies dv[k2] == bytes@[pos
                            + k2] by {
                            assert(bytes@.subrange(pos as int, ev)[k2] == bytes@[pos + k2]);
                        }
                        if ev <= p {
                            assert(48 <= bytes@[ev] <= 57);
                            assert(false);
                        }
                        assert(bytes@.subrange(pos as int, p as int) =~= dv.take(p - pos));
                        assert(dv.take(p - pos + 1).drop_last() =~= dv.take(p - pos));
                        assert(dv.take(p - pos + 1).last() == b);
                        assert(digits_val(dv.take(p - pos + 1)) == val * 10 + d);
                        lemma_dec_prefix_bound(v as nat, p - pos + 1);
                        assert(false);
                    }
                }
            }
            return None;
        }
        proof {
            assert(val * 10 + d <= u32::MAX) by (nonlinear_arith)
                requires
                    val <= (u32::MAX - d) / 10,
                    d <= 9,
            {}
        }
        let ghost before = bytes@.subrange(pos as int, p as int);
        let ghost oldval = val;
        val = val * 10 + d;
        p = p + 1;
        proof {
            let now = bytes@.subrange(pos as int, p as int);
            assert(now.drop_last() =~= before);
            assert(now.last() == b);
            assert(now[0] == before[0]);
            assert(before[0] == bytes@[pos as int]);
            assert forall|k: int| 0 <= k < now.len() implies 48 <= #[trigger] now[k] <= 57 by {
                if k < now.len() - 1 {
                    assert(now[k] == before[k]);
                } else {
                    assert(now[k] == b);
                }
            }
            assert(digits_val(now) == oldval * 10 + (b - 48));
        }
    }
}

/// Read `true` or `false` at `pos`.
fn parse_bool(bytes: &[u8], pos: usize) -> (r: Option<(bool, usize)>)
    requires
        pos <= bytes@.len(),
    ensures
        r matches Some((b, p)) ==> pos < p <= bytes@.len() && bytes@.subrange(
            pos as int,
            p as int,
        ) == (if b {
            lit_true()
        } else {
            lit_false()
        }),
        r is None ==> !(pos + 4 <= bytes@.len() && bytes@.subrange(pos as int, pos as int + 4)
            == lit_true()) && !(pos + 5 <= bytes@.len() && bytes@.subrange(
            pos as int,
            pos as int + 5,
        ) == lit_false()),
{
    let mut lit_t: Vec<u8> = Vec::new();
    push_lit_bool(&mut lit_t, true);
    proof {
        assert(Seq::<u8>::empty() + lit_true() =~= lit_true());
    }
    if let Some(p) = eat(bytes, pos, &lit_t) {
        return Some((true, p));
    }
    let mut lit_f: Vec<u8> = Vec::new();
    push_lit_bool(&mut lit_f, false);
    proof {
        assert(Seq::<u8>::empty() + lit_false() =~= lit_false());
    }
    if let Some(p) = eat(bytes, pos, &lit_f) {
        return Some((false, p));
    }
    None
}

/// Render the record in its canonical persisted form, or refuse when a
/// string of it is not plain: exactly then is nothing returned, and what
/// is returned is exactly `enc_record`.
pub fn encode_record(rec: &EntityRecord) -> (r: Option<Vec<u8>>)
    ensures
        r is Some <==> rec_plain(*rec),
        r matches Some(v) ==> v@ == enc_record(*rec),
{
    if !str_is_plain(rec.key.as_str()) {
        return None;
    }
    if !str_is_plain(rec.kind.as_str()) {
        return None;
    }
    let n: usize = rec.items.len();
    let mut i: usize = 0;
    while i < n
        invariant
            n == rec.items@.len(),
            i <= n,
            forall|k: int| 0 <= k < i ==> plain_text((#[trigger] rec.items@[k]).id@),
        decreases n - i,
    {
        if !str_is_plain(rec.items[i].id.as_str()) {
            return None;
        }
        i = i + 1;
    }
    let mut out: Vec<u8> = Vec::new();
    push_lit_key(&mut out);
    proof {
        assert(Seq::<u8>::empty() + lit_key() =~= lit_key());
    }
    push_plain_str(&mut out, rec.key.as_str());
    push_lit_kind(&mut out);
    push_plain_str(&mut out, rec.kind.as_str());
    push_lit_items(&mut out);
    push_items(&mut out, &rec.items);
    push_lit_end(&mut out);
    Some(out)
}



/// What `item_at` spells out at each byte offset of the encoded stack.
proof fn lemma_item_canon(bytes: Seq<u8>, pos: int, it: InventoryItem)
    requires
        item_at(bytes, pos, it),
    ensures
        pos + enc_item(it).len() == pos + 34 + it.id@.len() + dec_of(it.quantity as nat).len() + (
        if it.stackable {
            4int
        } else {
            5int
        }),
        pos + enc_item(it).len() <= bytes.len(),
        bytes.subrange(pos, pos + 7) == lit_id(),
        forall|k: int|
            pos + 7 <= k < pos + 7 + it.id@.len() ==> byte_plain(#[trigger] bytes[k]),
        bytes[pos + 7 + it.id@.len() as int] == 34,
        bytes.subrange(pos + 7 + it.id@.len() as int, pos + 20 + it.id@.len() as int)
            == lit_quantity(),
        number_at(bytes, pos + 20 + it.id@.len() as int, it.quantity),
        forall|k: int|
            pos + 20 + it.id@.len() <= k < pos + 20 + it.id@.len() + dec_of(
                it.quantity as nat,
            ).len() ==> 48 <= #[trigger] bytes[k] <= 57,
        bytes.subrange(
            pos + 20 + it.id@.len() + dec_of(it.quantity as nat).len() as int,
            pos + 33 + it.id@.len() + dec_of(it.quantity as nat).len() as int,
        ) == lit_stackable(),
        bytes[pos + 20 + it.id@.len() + dec_of(it.quantity as nat).len() as int] == 44,
        bytes.subrange(
            pos + 33 + it.id@.len() + dec_of(it.quantity as nat).len() as int,
            pos + 33 + it.id@.len() + dec_of(it.quantity as nat).len() + (if it.stackable {
                4int
            } else {
                5int
            }),
        ) == (if it.stackable {
            lit_true()
        } else {
            lit_false()
        }),
        bytes[pos + 33 + it.id@.len() + dec_of(it.quantity as nat).len() as int] == (
        if it.stackable {
            116u8
        } else {
            102u8
        }),
        bytes[pos + 33 + it.id@.len() + dec_of(it.quantity as nat).len() + (if it.stackable {
            4int
        } else {
            5int
        })] == 125,
{
    let total = enc_item(it);
    let ll = it.id@.len() as int;
    let dl = dec_of(it.quantity as nat).len() as int;
    let bl: int = if it.stackable { 4 } else { 5 };
    lemma_enc_item_segments(it);
    lemma_subrange_of_eq(bytes, pos, 0, 7, total);
    lemma_subrange_of_eq(bytes, pos, 7, 7 + ll, total);
    lemma_subrange_of_eq(bytes, pos, 7 + ll, 20 + ll, total);
    lemma_subrange_of_eq(bytes, pos, 20 + ll, 20 + ll + dl, total);
    lemma_subrange_of_eq(bytes, pos, 20 + ll + dl, 33 + ll + dl, total);
    lemma_subrange_of_eq(bytes, pos, 33 + ll + dl, 33 + ll + dl + bl, total);
    lemma_subrange_of_eq(bytes, pos, 33 + ll + dl + bl, 34 + ll + dl + bl, total);
    assert forall|k: int| pos + 7 <= k < pos + 7 + ll implies byte_plain(#[trigger] bytes[k]) by {
        assert(bytes.subrange(pos + 7, pos + 7 + ll)[k - pos - 7] == bytes[k]);
        assert(plain_char(it.id@[k - pos - 7]));
    }
    assert(bytes.subrange(pos + 7 + ll, pos + 20 + ll)[0] == bytes[pos + 7 + ll]);
    lemma_dec_of_digits_range(it.quantity as nat);
    assert forall|k: int| pos + 20 + ll <= k < pos + 20 + ll + dl implies 48 <= #[trigger] bytes[k]
        <= 57 by {
        assert(bytes.subrange(pos + 20 + ll, pos + 20 + ll + dl)[k - pos - 20 - ll] == bytes[k]);
    }
    assert(bytes.subrange(pos + 20 + ll + dl, pos + 33 + ll + dl)[0] == bytes[pos + 20 + ll + dl]);
    assert(bytes.subrange(pos + 33 + ll + dl, pos + 33 + ll + dl + bl)[0] == bytes[pos + 33 + ll
        + dl]);
    assert(bytes.subrange(pos + 33 + ll + dl + bl, pos + 34 + ll + dl + bl)[0] == bytes[pos + 33
        + ll + dl + bl]);
}

/// Pinning the quote: the position where the reader stopped on a quote is
/// the canonical end of the encoded id.
proof fn lemma_pin_item_quote(bytes: Seq<u8>, pos: int, it: InventoryItem, p2: int)
    requires
        item_at(bytes, pos, it),
        pos + 7 <= p2 < bytes.len(),
        bytes[p2] == 34,
        forall|k: int| pos + 7 <= k < p2 ==> byte_plain(#[trigger] bytes[k]),
    ensures
        p2 == pos + 7 + it.id@.len(),
{
    lemma_item_canon(bytes, pos, it);
    lemma_first_quote_unique(bytes, pos + 7, p2, pos + 7 + it.id@.len() as int);
}

/// Pinning the digits: the position where the reader stopped on a
/// non-digit is the canonical end of the encoded quantity.
proof fn lemma_pin_item_digits(bytes: Seq<u8>, pos: int, it: InventoryItem, p4: int)
    requires
        item_at(bytes, pos, it),
        pos + 20 + it.id@.len() <= p4 <= bytes.len(),
        forall|k: int| pos + 20 + it.id@.len() <= k < p4 ==> 48 <= #[trigger] bytes[k] <= 57,
        p4 == bytes.len() || !(48 <= bytes[p4] <= 57),
    ensures
        p4 == pos + 20 + it.id@.len() + dec_of(it.quantity as nat).len(),
{
    lemma_item_canon(bytes, pos, it);
    lemma_digit_run_end_unique(
        bytes,
        pos + 20 + it.id@.len() as int,
        p4,
        pos + 20 + it.id@.len() + dec_of(it.quantity as nat).len() as int,
    );
}

/// A failed opening literal means no stack sits here.
proof fn lemma_item_none_open(bytes: Seq<u8>, pos: int)
    requires
        0 <= pos,
        !(pos + 7 <= bytes.len() && bytes.subrange(pos, pos + 7) == lit_id()),
    ensures
        forall|it: InventoryItem| !(#[trigger] item_at(bytes, pos, it)),
{
    assert forall|it: InventoryItem| !(#[trigger] item_at(bytes, pos, it)) by {
        if item_at(bytes, pos, it) {
            lemma_item_canon(bytes, pos, it);
        }
    }
}

/// An id run with no closing quote means no stack sits here.
proof fn lemma_item_none_quote(bytes: Seq<u8>, pos: int)
    requires
        0 <= pos,
        !quote_terminated(bytes, pos + 7),
    ensures
        forall|it: InventoryItem| !(#[trigger] item_at(bytes, pos, it)),
{
    assert forall|it: InventoryItem| !(#[trigger] item_at(bytes, pos, it)) by {
        if item_at(bytes, pos, it) {
            lemma_item_canon(bytes, pos, it);
            let e2 = pos + 7 + it.id@.len() as int;
            assert(bytes[e2] == 34);
            assert(quote_terminated(bytes, pos + 7));
        }
    }
}

/// The facts the reader has after stopping on the id's closing quote.
spec fn quote_stop(bytes: Seq<u8>, pos: int, p2: int) -> bool {
    &&& pos + 7 <= p2 < bytes.len()
    &&& bytes[p2] == 34
    &&& forall|k: int| pos + 7 <= k < p2 ==> byte_plain(#[trigger] bytes[k])
}

/// A failed quantity literal after the quote means no stack sits here.
proof fn lemma_item_none_litq(bytes: Seq<u8>, pos: int, p2: int)
    requires
        0 <= pos,
        quote_stop(bytes, pos, p2),
        !(p2 + 13 <= bytes.len() && bytes.subrange(p2, p2 + 13) == lit_quantity()),
    ensures
        forall|it: InventoryItem| !(#[trigger] item_at(bytes, pos, it)),
{
    assert forall|it: InventoryItem| !(#[trigger] item_at(bytes, pos, it)) by {
        if item_at(bytes, pos, it) {
            lemma_pin_item_quote(bytes, pos, it, p2);
            lemma_item_canon(bytes, pos, it);
        }
    }
}

/// No readable quantity after the quantity literal means no stack sits
/// here.
proof fn lemma_item_none_num(bytes: Seq<u8>, pos: int, p2: int)
    requires
        0 <= pos,
        quote_stop(bytes, pos, p2),
        forall|v: u32| !(#[trigger] number_at(bytes, p2 + 13, v)),
    ensures
        forall|it: InventoryItem| !(#[trigger] item_at(bytes, pos, it)),
{
    assert forall|it: InventoryItem| !(#[trigger] item_at(bytes, pos, it)) by {
        if item_at(bytes, pos, it) {
            lemma_pin_item_quote(bytes, pos, it, p2);
            lemma_item_canon(bytes, pos, it);
            assert(number_at(bytes, p2 + 13, it.quantity));
        }
    }
}

/// The facts the reader has after stopping at the end of the digits.
spec fn digits_stop(bytes: Seq<u8>, p2: int, p4: int) -> bool {
    &&& p2 + 13 <= p4 <= bytes.len()
    &&& forall|k: int| p2 + 13 <= k < p4 ==> 48 <= #[trigger] bytes[k] <= 57
    &&& (p4 == bytes.len() || !(48 <= bytes[p4] <= 57))
}

/// A failed stackable literal after the digits means no stack sits here.
proof fn lemma_item_none_lits(bytes: Seq<u8>, pos: int, p2: int, p4: int)
    requires
        0 <= pos,
        quote_stop(bytes, pos, p2),
        digits_stop(bytes, p2, p4),
        !(p4 + 13 <= bytes.len() && bytes.subrange(p4, p4 + 13) == lit_stackable()),
    ensures
        forall|it: InventoryItem| !(#[trigger] item_at(bytes, pos, it)),
{
    assert forall|it: InventoryItem| !(#[trigger] item_at(bytes, pos, it)) by {
        if item_at(bytes, pos, it) {
            lemma_pin_item_quote(bytes, pos, it, p2);
            lemma_pin_item_digits(bytes, pos, it, p4);
            lemma_item_canon(bytes, pos, it);
        }
    }
}

/// A failed boolean after the stackable literal means no stack sits here.
proof fn lemma_item_none_bool(bytes: Seq<u8>, pos: int, p2: int, p4: int)
    requires
        0 <= pos,
        quote_stop(bytes, pos, p2),
        digits_stop(bytes, p2, p4),
        !(p4 + 17 <= bytes.len() && bytes.subrange(p4 + 13, p4 + 17) == lit_true()),
        !(p4 + 18 <= bytes.len() && bytes.subrange(p4 + 13, p4 + 18) == lit_false()),
    ensures
        forall|it: InventoryItem| !(#[trigger] item_at(bytes, pos, it)),
{
    assert forall|it: InventoryItem| !(#[trigger] item_at(bytes, pos, it)) by {
        if item_at(bytes, pos, it) {
            lemma_pin_item_quote(bytes, pos, it, p2);
            lemma_pin_item_digits(bytes, pos, it, p4);
            lemma_item_canon(bytes, pos, it);
        }
    }
}

/// Once the boolean is read, the end of any stack sitting here is pinned:
/// one byte past the boolean's brace.
proof fn lemma_item_pin_end(bytes: Seq<u8>, pos: int, p2: int, p4: int, stv: bool, p6: int)
    requires
        0 <= pos,
        quote_stop(bytes, pos, p2),
        digits_stop(bytes, p2, p4),
        p4 + 13 < p6 <= bytes.len(),
        bytes.subrange(p4 + 13, p6) == (if stv {
            lit_true()
        } else {
            lit_false()
        }),
    ensures
        forall|it: InventoryItem|
            #[trigger] item_at(bytes, pos, it) ==> p6 + 1 == pos + enc_item(it).len() && p6 < bytes.len()
                && bytes[p6] == 125 && stv == it.stackable,
{
    assert forall|it: InventoryItem| #[trigger] item_at(bytes, pos, it) implies p6 + 1 == pos
        + enc_item(it).len() && p6 < bytes.len() && bytes[p6] == 125 && stv == it.stackable by {
        lemma_pin_item_quote(bytes, pos, it, p2);
        lemma_pin_item_digits(bytes, pos, it, p4);
        lemma_item_canon(bytes, pos, it);
        assert(bytes.subrange(p4 + 13, p6)[0] == bytes[p4 + 13]);
        if stv != it.stackable {
            assert(false);
        }
    }
}

/// Read one stack at `pos`: a returned stack means the bytes read were
/// exactly its canonical form, and where a canonical stack sits at `pos`,
/// reading succeeds and ends exactly at its last byte.
#[verifier::rlimit(100)]
fn parse_item(bytes: &[u8], pos: usize) -> (r: Option<(InventoryItem, usize)>)
    requires
        pos <= bytes@.len(),
    ensures
        r matches Some((it, p)) ==> pos < p <= bytes@.len() && plain_text(it.id@)
            && bytes@.subrange(pos as int, p as int) == enc_item(it),
        (exists|it: InventoryItem| #[trigger] item_at(bytes@, pos as int, it)) ==> r is Some,
        r matches Some((it2, p)) ==> (forall|it: InventoryItem|
            #[trigger] item_at(bytes@, pos as int, it) ==> p as int == pos + enc_item(it).len()),
{
    let mut lid: Vec<u8> = Vec::new();
    push_lit_id(&mut lid);
    proof {
        assert(Seq::<u8>::empty() + lit_id() =~= lit_id());
    }
    let p1 = match eat(bytes, pos, &lid) {
        Some(p) => p,
        None => {
            proof {
                lemma_item_none_open(bytes@, pos as int);
            }
            return None;
        },
    };
    let (id, p2) = match parse_string(bytes, p1) {
        Some(x) => x,
        None => {
            proof {
                lemma_item_none_quote(bytes@, pos as int);
            }
            return None;
        },
    };
    let mut lq: Vec<u8> = Vec::new();
    push_lit_quantity(&mut lq);
    proof {
        assert(Seq::<u8>::empty() + lit_quantity() =~= lit_quantity());
        assert(quote_stop(bytes@, pos as int, p2 as int));
    }
    let p3 = match eat(bytes, p2, &lq) {
        Some(p) => p,
        None => {
            proof {
                lemma_item_none_litq(bytes@, pos as int, p2 as int);
            }
            return None;
        },
    };
    let (q, p4) = match parse_u32(bytes, p3) {
        Some(x) => x,
        None => {
            proof {
                lemma_item_none_num(bytes@, pos as int, p2 as int);
            }
            return None;
        },
    };
    let mut ls: Vec<u8> = Vec::new();
    push_lit_stackable(&mut ls);
    proof {
        assert(Seq::<u8>::empty() + lit_stackable() =~= lit_stackable());
        assert(digits_stop(bytes@, p2 as int, p4 as int));
    }
    let p5 = match eat(bytes, p4, &ls) {
        Some(p) => p,
        None => {
            proof {
                lemma_item_none_lits(bytes@, pos as int, p2 as int, p4 as int);
            }
            return None;
        },
    };
    let (st, p6) = match parse_bool(bytes, p5) {
        Some(x) => x,
        None => {
            proof {
                lemma_item_none_bool(bytes@, pos as int, p2 as int, p4 as int);
            }
            return None;
        },
    };
    proof {
        lemma_item_pin_end(bytes@, pos as int, p2 as int, p4 as int, st, p6 as int);
    }
    if p6 >= bytes.len() {
        proof {
            assert forall|it: InventoryItem| !(#[trigger] item_at(bytes@, pos as int, it)) by {}
        }
        return None;
    }
    if bytes[p6] != ('}' as u8) {
        proof {
            assert forall|it: InventoryItem| !(#[trigger] item_at(bytes@, pos as int, it)) by {}
        }
        return None;
    }
    let p7 = p6 + 1;
    let it = InventoryItem { id, quantity: q, stackable: st };
    proof {
        let all = bytes@;
        assert(all.subrange(p6 as int, p7 as int) =~= seq![('}' as u8)]);
        assert(all.subrange(pos as int, p2 as int) =~= all.subrange(pos as int, p1 as int)
            + all.subrange(p1 as int, p2 as int));
        assert(all.subrange(pos as int, p3 as int) =~= all.subrange(pos as int, p2 as int)
            + all.subrange(p2 as int, p3 as int));
        assert(all.subrange(pos as int, p4 as int) =~= all.subrange(pos as int, p3 as int)
            + all.subrange(p3 as int, p4 as int));
        assert(all.subrange(pos as int, p5 as int) =~= all.subrange(pos as int, p4 as int)
            + all.subrange(p4 as int, p5 as int));
        assert(all.subrange(pos as int, p6 as int) =~= all.subrange(pos as int, p5 as int)
            + all.subrange(p5 as int, p6 as int));
        assert(all.subrange(pos as int, p7 as int) =~= all.subrange(pos as int, p6 as int)
            + all.subrange(p6 as int, p7 as int));
        assert(all.subrange(pos as int, p7 as int) == enc_item(it));
    }
    Some((it, p7))
}

/// The comma step of an encoded list: the front stacks, the comma, the
/// next stack.
proof fn lemma_enc_items_take_step(v: Seq<InventoryItem>, k: int)
    requires
        1 <= k < v.len(),
    ensures
        enc_items(v.take(k + 1)) == enc_items(v.take(k)) + seq![(',' as u8)] + enc_item(v[k]),
{
    assert(v.take(k + 1).drop_last() =~= v.take(k));
    assert(v.take(k + 1).last() == v[k]);
}

/// The first stack of a canonical list sits at its start.
proof fn lemma_items_at_first(bytes: Seq<u8>, pos: int, v: Seq<InventoryItem>)
    requires
        items_at(bytes, pos, v),
        v.len() >= 1,
    ensures
        item_at(bytes, pos, v[0]),
{
    lemma_enc_items_left_unfold(v);
    let total = enc_items(v);
    lemma_subrange_of_eq(bytes, pos, 0, enc_item(v[0]).len() as int, total);
    assert(total.subrange(0, enc_item(v[0]).len() as int) =~= enc_item(v[0]));
}

/// At each interior boundary of a canonical list stands a comma, then the
/// next stack.
proof fn lemma_items_at_boundary(bytes: Seq<u8>, pos: int, v: Seq<InventoryItem>, k: int)
    requires
        items_at(bytes, pos, v),
        1 <= k < v.len(),
    ensures
        pos + enc_items(v.take(k)).len() < bytes.len(),
        bytes[pos + enc_items(v.take(k)).len()] == 44,
        item_at(bytes, pos + enc_items(v.take(k)).len() + 1, v[k]),
{
    lemma_enc_items_split_at(v, k);
    lemma_enc_items_left_unfold(v.skip(k));
    assert(v.skip(k)[0] == v[k]);
    let total = enc_items(v);
    let fl = enc_items(v.take(k)).len() as int;
    let el = enc_item(v[k]).len() as int;
    assert(total =~= enc_items(v.take(k)) + seq![(',' as u8)] + enc_item(v[k]) + (
    if v.skip(k).len() == 1 {
        Seq::<u8>::empty()
    } else {
        seq![(',' as u8)] + enc_items(v.skip(k).skip(1))
    }));
    lemma_subrange_of_eq(bytes, pos, fl, fl + 1, total);
    assert(total.subrange(fl, fl + 1) =~= seq![(',' as u8)]);
    assert(bytes.subrange(pos + fl, pos + fl + 1)[0] == bytes[pos + fl]);
    lemma_subrange_of_eq(bytes, pos, fl + 1, fl + 1 + el, total);
    assert(total.subrange(fl + 1, fl + 1 + el) =~= enc_item(v[k]));
}

/// A nonempty canonical list cannot start where a bracket stands.
proof fn lemma_items_none_here(bytes: Seq<u8>, pos: int)
    requires
        0 <= pos,
        pos >= bytes.len() || bytes[pos] != 123,
    ensures
        forall|v: Seq<InventoryItem>|
            #[trigger] items_at(bytes, pos, v) ==> v.len() == 0,
{
    assert forall|v: Seq<InventoryItem>| #[trigger] items_at(bytes, pos, v) implies v.len()
        == 0 by {
        if v.len() > 0 {
            lemma_enc_items_first_byte(v);
            assert(bytes.subrange(pos, pos + enc_items(v).len() as int)[0] == bytes[pos]);
        }
    }
}

/// Read the comma-separated stack list standing between `[` and `]`: what
/// is returned was read from exactly its canonical form, and where a
/// canonical list sits here (the bracket right after it), reading succeeds
/// and stops exactly at that bracket.
#[verifier::rlimit(100)]
fn parse_items(bytes: &[u8], pos: usize) -> (r: Option<(Vec<InventoryItem>, usize)>)
    requires
        pos <= bytes@.len(),
    ensures
        r matches Some((v, p)) ==> pos <= p <= bytes@.len() && (forall|k: int|
            0 <= k < v@.len() ==> plain_text((#[trigger] v@[k]).id@)) && bytes@.subrange(
            pos as int,
            p as int,
        ) == enc_items(v@),
        (exists|v: Seq<InventoryItem>| #[trigger] items_at(bytes@, pos as int, v)) ==> r is Some,
        r matches Some((v2, p)) ==> (forall|v: Seq<InventoryItem>|
            #[trigger] items_at(bytes@, pos as int, v) ==> p as int == pos + enc_items(v).len()),
{
    let mut acc: Vec<InventoryItem> = Vec::new();
    if pos < bytes.len() && bytes[pos] == (']' as u8) {
        proof {
            assert(bytes@.subrange(pos as int, pos as int) =~= enc_items(acc@));
            lemma_items_none_here(bytes@, pos as int);
        }
        return Some((acc, pos));
    }
    proof {
        assert forall|v: Seq<InventoryItem>| #[trigger] items_at(bytes@, pos as int, v) implies v.len()
            >= 1 by {
            if v.len() == 0 {
                assert(bytes@[pos as int] == 93);
            }
        }
    }
    let (it0, first_end) = match parse_item(bytes, pos) {
        Some(x) => x,
        None => {
            proof {
                assert forall|v: Seq<InventoryItem>| !(#[trigger] items_at(
                    bytes@,
                    pos as int,
                    v,
                )) by {
                    if items_at(bytes@, pos as int, v) {
                        lemma_items_at_first(bytes@, pos as int, v);
                    }
                }
            }
            return None;
        },
    };
    acc.push(it0);
    let mut p: usize = first_end;
    proof {
        assert(acc@ =~= Seq::<InventoryItem>::empty().push(it0));
        assert(enc_items(acc@) == enc_item(it0));
        assert forall|v: Seq<InventoryItem>| #[trigger] items_at(bytes@, pos as int, v) implies acc@.len()
            <= v.len() && p as int == pos + enc_items(v.take(acc@.len() as int)).len() by {
            lemma_items_at_first(bytes@, pos as int, v);
            assert(v.take(1) =~= seq![v[0]]);
            assert(enc_items(seq![v[0]]) == enc_item(v[0]));
        }
    }
    loop
        invariant
            pos <= p <= bytes@.len(),
            acc@.len() >= 1,
            forall|k: int| 0 <= k < acc@.len() ==> plain_text((#[trigger] acc@[k]).id@),
            bytes@.subrange(pos as int, p as int) == enc_items(acc@),
            forall|v: Seq<InventoryItem>|
                #[trigger] items_at(bytes@, pos as int, v) ==> acc@.len() <= v.len() && p as int
                    == pos + enc_items(v.take(acc@.len() as int)).len(),
        decreases bytes@.len() - p,
    {
        if p >= bytes.len() {
            proof {
                assert forall|v: Seq<InventoryItem>| #[trigger] items_at(bytes@, pos as int, v) implies p
                    as int == pos + enc_items(v).len() by {
                    if acc@.len() < v.len() {
                        lemma_items_at_boundary(bytes@, pos as int, v, acc@.len() as int);
                    }
                    assert(v.take(v.len() as int) =~= v);
                }
            }
            return Some((acc, p));
        }
        if bytes[p] != (',' as u8) {
            proof {
                assert forall|v: Seq<InventoryItem>| #[trigger] items_at(bytes@, pos as int, v) implies p
                    as int == pos + enc_items(v).len() by {
                    if acc@.len() < v.len() {
                        lemma_items_at_boundary(bytes@, pos as int, v, acc@.len() as int);
                    }
                    assert(v.take(v.len() as int) =~= v);
                }
            }
            return Some((acc, p));
        }
        let pc = p + 1;
        proof {
            assert forall|v: Seq<InventoryItem>| #[trigger] items_at(bytes@, pos as int, v) implies acc@.len()
                < v.len() && item_at(bytes@, pc as int, v[acc@.len() as int]) by {
                if acc@.len() == v.len() {
                    assert(v.take(v.len() as int) =~= v);
                    assert(bytes@[p as int] == 93);
                }
                lemma_items_at_boundary(bytes@, pos as int, v, acc@.len() as int);
            }
        }
        let (it, p2) = match parse_item(bytes, pc) {
            Some(x) => x,
            None => {
                proof {
                    assert forall|v: Seq<InventoryItem>| !(#[trigger] items_at(
                        bytes@,
                        pos as int,
                        v,
                    )) by {
                        if items_at(bytes@, pos as int, v) {
                            assert(item_at(bytes@, pc as int, v[acc@.len() as int]));
                        }
                    }
                }
                return None;
            },
        };
        let ghost old_acc = acc@;
        let ghost old_p = p;
        acc.push(it);
        p = p2;
        proof {
            let all = bytes@;
            assert(all.subrange(old_p as int, pc as int) =~= seq![(',' as u8)]);
            assert(all.subrange(pos as int, pc as int) =~= all.subrange(pos as int, old_p as int)
                + all.subrange(old_p as int, pc as int));
            assert(all.subrange(pos as int, p2 as int) =~= all.subrange(pos as int, pc as int)
                + all.subrange(pc as int, p2 as int));
            assert(acc@.drop_last() =~= old_acc);
            assert(acc@.last() == it);
            assert(enc_items(acc@) == enc_items(old_acc) + seq![(',' as u8)] + enc_item(it));
            assert(all.subrange(pos as int, p2 as int) == enc_items(acc@));
            assert forall|v: Seq<InventoryItem>| #[trigger] items_at(bytes@, pos as int, v) implies acc@.len()
                <= v.len() && p as int == pos + enc_items(v.take(acc@.len() as int)).len() by {
                let k = old_acc.len() as int;
                assert(item_at(bytes@, pc as int, v[k]));
                assert(p2 as int == pc as int + enc_item(v[k]).len());
                lemma_enc_items_take_step(v, k);
            }
        }
    }
}
/// Whether `bytes` is exactly the canonical form of the plain record
/// `rec`: what `encode_record` returns for it.
pub open spec fn canonical_of(bytes: Seq<u8>, rec: EntityRecord) -> bool {
    rec_plain(rec) && bytes == enc_record(rec)
}

/// What a canonical record byte string spells out at each offset.
proof fn lemma_record_canon(bytes: Seq<u8>, rec: EntityRecord)
    requires
        canonical_of(bytes, rec),
    ensures
        bytes.len() == 31 + rec.key@.len() + rec.kind@.len() + enc_items(rec.items@).len(),
        bytes.subrange(0, 8) == lit_key(),
        forall|k: int| 8 <= k < 8 + rec.key@.len() ==> byte_plain(#[trigger] bytes[k]),
        bytes[8 + rec.key@.len() as int] == 34,
        bytes.subrange(8 + rec.key@.len() as int, 18 + rec.key@.len() as int) == lit_kind(),
        forall|k: int|
            18 + rec.key@.len() <= k < 18 + rec.key@.len() + rec.kind@.len() ==> byte_plain(
                #[trigger] bytes[k],
            ),
        bytes[18 + rec.key@.len() + rec.kind@.len() as int] == 34,
        bytes.subrange(
            18 + rec.key@.len() + rec.kind@.len() as int,
            29 + rec.key@.len() + rec.kind@.len() as int,
        ) == lit_items(),
        items_at(bytes, 29 + rec.key@.len() + rec.kind@.len() as int, rec.items@),
        bytes.subrange(
            29 + rec.key@.len() + rec.kind@.len() + enc_items(rec.items@).len() as int,
            31 + rec.key@.len() + rec.kind@.len() + enc_items(rec.items@).len() as int,
        ) == lit_end(),
{
    let lk = rec.key@.len() as int;
    let ld = rec.kind@.len() as int;
    let li = enc_items(rec.items@).len() as int;
    lemma_enc_record_segments(rec);
    assert forall|k: int| 8 <= k < 8 + lk implies byte_plain(#[trigger] bytes[k]) by {
        assert(bytes.subrange(8, 8 + lk)[k - 8] == bytes[k]);
        assert(plain_char(rec.key@[k - 8]));
    }
    assert forall|k: int| 18 + lk <= k < 18 + lk + ld implies byte_plain(#[trigger] bytes[k]) by {
        assert(bytes.subrange(18 + lk, 18 + lk + ld)[k - 18 - lk] == bytes[k]);
        assert(plain_char(rec.kind@[k - 18 - lk]));
    }
    assert(bytes.subrange(8 + lk, 18 + lk)[0] == bytes[8 + lk]);
    assert(bytes.subrange(18 + lk + ld, 29 + lk + ld)[0] == bytes[18 + lk + ld]);
    assert(bytes.subrange(29 + lk + ld + li, 31 + lk + ld + li)[0] == bytes[29 + lk + ld + li]);
}

/// Pinning the key's closing quote of a canonical record.
proof fn lemma_pin_record_key(bytes: Seq<u8>, rec: EntityRecord, p2: int)
    requires
        canonical_of(bytes, rec),
        8 <= p2 < bytes.len(),
        bytes[p2] == 34,
        forall|k: int| 8 <= k < p2 ==> byte_plain(#[trigger] bytes[k]),
    ensures
        p2 == 8 + rec.key@.len(),
{
    lemma_record_canon(bytes, rec);
    lemma_first_quote_unique(bytes, 8, p2, 8 + rec.key@.len() as int);
}

/// Pinning the kind's closing quote of a canonical record, once the key's
/// quote is pinned.
proof fn lemma_pin_record_kind(bytes: Seq<u8>, rec: EntityRecord, p4: int)
    requires
        canonical_of(bytes, rec),
        18 + rec.key@.len() <= p4 < bytes.len(),
        bytes[p4] == 34,
        forall|k: int| 18 + rec.key@.len() <= k < p4 ==> byte_plain(#[trigger] bytes[k]),
    ensures
        p4 == 18 + rec.key@.len() + rec.kind@.len(),
{
    lemma_record_canon(bytes, rec);
    lemma_first_quote_unique(
        bytes,
        18 + rec.key@.len() as int,
        p4,
        18 + rec.key@.len() + rec.kind@.len() as int,
    );
}

/// The facts the reader has after stopping on a closing quote.
spec fn stopped_on_quote(bytes: Seq<u8>, start: int, p: int) -> bool {
    &&& start <= p < bytes.len()
    &&& bytes[p] == 34
    &&& forall|k: int| start <= k < p ==> byte_plain(#[trigger] bytes[k])
}

/// A failed opening literal means these bytes are no canonical record.
proof fn lemma_record_none_open(bytes: Seq<u8>)
    requires
        !(8 <= bytes.len() && bytes.subrange(0, 8) == lit_key()),
    ensures
        forall|rec: EntityRecord| !(#[trigger] canonical_of(bytes, rec)),
{
    assert forall|rec: EntityRecord| !(#[trigger] canonical_of(bytes, rec)) by {
        if canonical_of(bytes, rec) {
            lemma_record_canon(bytes, rec);
        }
    }
}

/// A key with no closing quote means these bytes are no canonical record.
proof fn lemma_record_none_key(bytes: Seq<u8>)
    requires
        !quote_terminated(bytes, 8),
    ensures
        forall|rec: EntityRecord| !(#[trigger] canonical_of(bytes, rec)),
{
    assert forall|rec: EntityRecord| !(#[trigger] canonical_of(bytes, rec)) by {
        if canonical_of(bytes, rec) {
            lemma_record_canon(bytes, rec);
            let e = 8 + rec.key@.len() as int;
            assert(bytes[e] == 34);
            assert(quote_terminated(bytes, 8));
        }
    }
}

/// A failed kind literal after the key means no canonical record.
proof fn lemma_record_none_litkind(bytes: Seq<u8>, p2: int)
    requires
        stopped_on_quote(bytes, 8, p2),
        !(p2 + 10 <= bytes.len() && bytes.subrange(p2, p2 + 10) == lit_kind()),
    ensures
        forall|rec: EntityRecord| !(#[trigger] canonical_of(bytes, rec)),
{
    assert forall|rec: EntityRecord| !(#[trigger] canonical_of(bytes, rec)) by {
        if canonical_of(bytes, rec) {
            lemma_pin_record_key(bytes, rec, p2);
            lemma_record_canon(bytes, rec);
        }
    }
}

/// A kind with no closing quote means no canonical record.
proof fn lemma_record_none_kind(bytes: Seq<u8>, p2: int)
    requires
        stopped_on_quote(bytes, 8, p2),
        !quote_terminated(bytes, p2 + 10),
    ensures
        forall|rec: EntityRecord| !(#[trigger] canonical_of(bytes, rec)),
{
    assert forall|rec: EntityRecord| !(#[trigger] canonical_of(bytes, rec)) by {
        if canonical_of(bytes, rec) {
            lemma_pin_record_key(bytes, rec, p2);
            lemma_record_canon(bytes, rec);
            let e = 18 + rec.key@.len() + rec.kind@.len() as int;
            assert(bytes[e] == 34);
            assert(quote_terminated(bytes, p2 + 10));
        }
    }
}

/// A failed items literal after the kind means no canonical record.
proof fn lemma_record_none_lititems(bytes: Seq<u8>, p2: int, p4: int)
    requires
        stopped_on_quote(bytes, 8, p2),
        stopped_on_quote(bytes, p2 + 10, p4),
        !(p4 + 11 <= bytes.len() && bytes.subrange(p4, p4 + 11) == lit_items()),
    ensures
        forall|rec: EntityRecord| !(#[trigger] canonical_of(bytes, rec)),
{
    assert forall|rec: EntityRecord| !(#[trigger] canonical_of(bytes, rec)) by {
        if canonical_of(bytes, rec) {
            lemma_pin_record_key(bytes, rec, p2);
            lemma_pin_record_kind(bytes, rec, p4);
            lemma_record_canon(bytes, rec);
        }
    }
}

/// An unreadable stack list means no canonical record.
proof fn lemma_record_none_items(bytes: Seq<u8>, p2: int, p4: int)
    requires
        stopped_on_quote(bytes, 8, p2),
        stopped_on_quote(bytes, p2 + 10, p4),
        forall|v: Seq<InventoryItem>| !(#[trigger] items_at(bytes, p4 + 11, v)),
    ensures
        forall|rec: EntityRecord| !(#[trigger] canonical_of(bytes, rec)),
{
    assert forall|rec: EntityRecord| !(#[trigger] canonical_of(bytes, rec)) by {
        if canonical_of(bytes, rec) {
            lemma_pin_record_key(bytes, rec, p2);
            lemma_pin_record_kind(bytes, rec, p4);
            lemma_record_canon(bytes, rec);
            assert(items_at(bytes, p4 + 11, rec.items@));
        }
    }
}

/// Once the list's end is pinned, a canonical record fixes the closing
/// literal and the total length.
proof fn lemma_record_pin_tail(bytes: Seq<u8>, p2: int, p4: int, p6: int)
    requires
        stopped_on_quote(bytes, 8, p2),
        stopped_on_quote(bytes, p2 + 10, p4),
        forall|v: Seq<InventoryItem>|
            #[trigger] items_at(bytes, p4 + 11, v) ==> p6 == p4 + 11 + enc_items(v).len(),
    ensures
        forall|rec: EntityRecord|
            #[trigger] canonical_of(bytes, rec) ==> p6 + 2 <= bytes.len() && bytes.subrange(
                p6,
                p6 + 2,
            ) == lit_end() && p6 + 2 == bytes.len(),
{
    assert forall|rec: EntityRecord| #[trigger] canonical_of(bytes, rec) implies p6 + 2
        <= bytes.len() && bytes.subrange(p6, p6 + 2) == lit_end() && p6 + 2 == bytes.len() by {
        lemma_pin_record_key(bytes, rec, p2);
        lemma_pin_record_kind(bytes, rec, p4);
        lemma_record_canon(bytes, rec);
        assert(items_at(bytes, p4 + 11, rec.items@));
    }
}

/// Read a whole record back from its canonical persisted form. What is
/// returned decodes only from its exact canonical form — the bytes are
/// `enc_record` of it — and conversely, whenever the bytes are the
/// canonical form of some plain record, reading succeeds. Together with
/// `encode_record` and `lemma_enc_record_injective` this closes the round
/// trip: decoding what the encoder wrote succeeds and returns the record
/// it came from, field for field.
#[verifier::rlimit(100)]
pub fn decode_record(bytes: &[u8]) -> (r: Option<EntityRecord>)
    ensures
        r matches Some(rec) ==> rec_plain(rec) && bytes@ == enc_record(rec),
        (exists|rec: EntityRecord| #[trigger] canonical_of(bytes@, rec)) ==> r is Some,
{
    let mut lk: Vec<u8> = Vec::new();
    push_lit_key(&mut lk);
    proof {
        assert(Seq::<u8>::empty() + lit_key() =~= lit_key());
    }
    let p1 = match eat(bytes, 0, &lk) {
        Some(p) => p,
        None => {
            proof {
                lemma_record_none_open(bytes@);
            }
            return None;
        },
    };
    let (key, p2) = match parse_string(bytes, p1) {
        Some(x) => x,
        None => {
            proof {
                lemma_record_none_key(bytes@);
            }
            return None;
        },
    };
    let mut lkd: Vec<u8> = Vec::new();
    push_lit_kind(&mut lkd);
    proof {
        assert(Seq::<u8>::empty() + lit_kind() =~= lit_kind());
        assert(stopped_on_quote(bytes@, 8, p2 as int));
    }
    let p3 = match eat(bytes, p2, &lkd) {
        Some(p) => p,
        None => {
            proof {
                lemma_record_none_litkind(bytes@, p2 as int);
            }
            return None;
        },
    };
    let (kind, p4) = match parse_string(bytes, p3) {
        Some(x) => x,
        None => {
            proof {
                lemma_record_none_kind(bytes@, p2 as int);
            }
            return None;
        },
    };
    let mut lit: Vec<u8> = Vec::new();
    push_lit_items(&mut lit);
    proof {
        assert(Seq::<u8>::empty() + lit_items() =~= lit_items());
        assert(stopped_on_quote(bytes@, p2 as int + 10, p4 as int));
    }
    let p5 = match eat(bytes, p4, &lit) {
        Some(p) => p,
        None => {
            proof {
                lemma_record_none_lititems(bytes@, p2 as int, p4 as int);
            }
            return None;
        },
    };
    let (items, p6) = match parse_items(bytes, p5) {
        Some(x) => x,
        None => {
            proof {
                lemma_record_none_items(bytes@, p2 as int, p4 as int);
            }
            return None;
        },
    };
    proof {
        lemma_record_pin_tail(bytes@, p2 as int, p4 as int, p6 as int);
    }
    let mut lend: Vec<u8> = Vec::new();
    push_lit_end(&mut lend);
    proof {
        assert(Seq::<u8>::empty() + lit_end() =~= lit_end());
    }
    let p7 = match eat(bytes, p6, &lend) {
        Some(p) => p,
        None => {
            proof {
                assert forall|rec: EntityRecord| !(#[trigger] canonical_of(bytes@, rec)) by {}
            }
            return None;
        },
    };
    if p7 != bytes.len() {
        proof {
            assert forall|rec: EntityRecord| !(#[trigger] canonical_of(bytes@, rec)) by {}
        }
        return None;
    }
    let rec = EntityRecord { key, kind, items };
    proof {
        let all = bytes@;
        assert(all.subrange(0, p2 as int) =~= all.subrange(0, p1 as int) + all.subrange(
            p1 as int,
            p2 as int,
        ));
        assert(all.subrange(0, p3 as int) =~= all.subrange(0, p2 as int) + all.subrange(
            p2 as int,
            p3 as int,
        ));
        assert(all.subrange(0, p4 as int) =~= all.subrange(0, p3 as int) + all.subrange(
            p3 as int,
            p4 as int,
        ));
        assert(all.subrange(0, p5 as int) =~= all.subrange(0, p4 as int) + all.subrange(
            p4 as int,
            p5 as int,
        ));
        assert(all.subrange(0, p6 as int) =~= all.subrange(0, p5 as int) + all.subrange(
            p5 as int,
            p6 as int,
        ));
        assert(all.subrange(0, p7 as int) =~= all.subrange(0, p6 as int) + all.subrange(
            p6 as int,
            p7 as int,
        ));
        assert(all =~= all.subrange(0, p7 as int));
        assert(all == enc_record(rec));
    }
    Some(rec)
}

/// Equal sequences with the same prefix have equal remainders.
proof fn lemma_cancel_prefix<A>(p: Seq<A>, x: Seq<A>, y: Seq<A>)
    requires
        p + x == p + y,
    ensures
        x == y,
{
    assert((p + x).len() == p.len() + x.len());
    assert((p + y).len() == p.len() + y.len());
    assert((p + x).len() == (p + y).len());
    assert(x.len() == y.len());
    assert forall|i: int| 0 <= i < x.len() implies x[i] == y[i] by {
        assert((p + x)[p.len() + i] == x[i]);
        assert((p + y)[p.len() + i] == y[i]);
    }
    assert(x =~= y);
}

/// Plain text never encodes to a quote byte.
proof fn lemma_enc_str_no_quote(s: Seq<char>)
    requires
        plain_text(s),
    ensures
        forall|i: int| 0 <= i < s.len() ==> #[trigger] enc_str(s)[i] != 34,
{
    assert forall|i: int| 0 <= i < s.len() implies #[trigger] enc_str(s)[i] != 34 by {
        assert(plain_char(s[i]));
    }
}

/// A quote-terminated plain string determines itself and what follows: two
/// such readings of the same bytes agree.
proof fn lemma_quote_split(s1: Seq<char>, r1: Seq<u8>, s2: Seq<char>, r2: Seq<u8>)
    requires
        plain_text(s1),
        plain_text(s2),
        enc_str(s1) + seq![('"' as u8)] + r1 == enc_str(s2) + seq![('"' as u8)] + r2,
    ensures
        s1 == s2,
        r1 == r2,
{
    lemma_enc_str_no_quote(s1);
    lemma_enc_str_no_quote(s2);
    let t = enc_str(s1) + seq![('"' as u8)] + r1;
    let n1 = s1.len() as int;
    let n2 = s2.len() as int;
    if n1 < n2 {
        assert(t[n1] == 34);
        assert(t[n1] == enc_str(s2)[n1]);
        assert(false);
    }
    if n2 < n1 {
        assert(t[n2] == 34);
        assert(t[n2] == enc_str(s1)[n2]);
        assert(false);
    }
    assert forall|i: int| 0 <= i < n1 implies s1[i] == s2[i] by {
        assert(t[i] == enc_str(s1)[i]);
        assert(t[i] == enc_str(s2)[i]);
        assert(plain_char(s1[i]) && plain_char(s2[i]));
        assert(s1[i] as u8 == s2[i] as u8);
    }
    assert(s1 =~= s2);
    assert((enc_str(s1) + seq![('"' as u8)] + r1).len() == enc_str(s1).len() + 1 + r1.len());
    assert((enc_str(s2) + seq![('"' as u8)] + r2).len() == enc_str(s2).len() + 1 + r2.len());
    assert((enc_str(s1) + seq![('"' as u8)] + r1).len() == (enc_str(s2) + seq![('"' as u8)]
        + r2).len());
    assert(r1.len() == r2.len());
    assert forall|i: int| 0 <= i < r1.len() implies r1[i] == r2[i] by {
        assert(t[n1 + 1 + i] == r1[i]);
        assert(t[n1 + 1 + i] == r2[i]);
    }
    assert(r1 =~= r2);
}

/// Every byte `dec_of` writes is a decimal digit.
proof fn lemma_dec_of_digits_range(n: nat)
    ensures
        dec_of(n).len() > 0,
        forall|i: int| 0 <= i < dec_of(n).len() ==> 48 <= #[trigger] dec_of(n)[i] <= 57,
    decreases n,
{
    if n >= 10 {
        lemma_dec_of_digits_range(n / 10);
        assert forall|i: int| 0 <= i < dec_of(n).len() implies 48 <= #[trigger] dec_of(n)[i]
            <= 57 by {
            if i < dec_of(n).len() - 1 {
                assert(dec_of(n)[i] == dec_of(n / 10)[i]);
            }
        }
    }
}

/// Reading back the digits `dec_of` writes gives the number again.
proof fn lemma_val_of_dec(n: nat)
    ensures
        digits_val(dec_of(n)) == n,
    decreases n,
{
    if n < 10 {
        assert(dec_of(n).drop_last() =~= Seq::<u8>::empty());
        assert(digits_val(Seq::<u8>::empty()) == 0);
    } else {
        lemma_val_of_dec(n / 10);
        assert(dec_of(n).drop_last() =~= dec_of(n / 10));
        assert(digits_val(dec_of(n)) == digits_val(dec_of(n / 10)) * 10 + (n % 10));
        assert((n / 10) * 10 + n % 10 == n) by (nonlinear_arith);
    }
}

/// A digit run terminated by a non-digit determines its number and what
/// follows: two such readings of the same bytes agree.
proof fn lemma_digits_split(n1: u32, r1: Seq<u8>, n2: u32, r2: Seq<u8>)
    requires
        r1.len() > 0,
        r2.len() > 0,
        !(48 <= r1[0] <= 57),
        !(48 <= r2[0] <= 57),
        dec_of(n1 as nat) + r1 == dec_of(n2 as nat) + r2,
    ensures
        n1 == n2,
        r1 == r2,
{
    lemma_dec_of_digits_range(n1 as nat);
    lemma_dec_of_digits_range(n2 as nat);
    let d1 = dec_of(n1 as nat);
    let d2 = dec_of(n2 as nat);
    let t = d1 + r1;
    if d1.len() < d2.len() {
        assert(t[d1.len() as int] == r1[0]);
        assert(t[d1.len() as int] == d2[d1.len() as int]);
        assert(false);
    }
    if d2.len() < d1.len() {
        assert(t[d2.len() as int] == r2[0]);
        assert(t[d2.len() as int] == d1[d2.len() as int]);
        assert(false);
    }
    assert forall|i: int| 0 <= i < d1.len() implies d1[i] == d2[i] by {
        assert(t[i] == d1[i]);
        assert(t[i] == d2[i]);
    }
    assert(d1 =~= d2);
    lemma_val_of_dec(n1 as nat);
    lemma_val_of_dec(n2 as nat);
    assert((d1 + r1).len() == (d2 + r2).len());
    assert(r1.len() == r2.len());
    assert forall|i: int| 0 <= i < r1.len() implies r1[i] == r2[i] by {
        assert(t[d1.len() + i] == r1[i]);
        assert(t[d1.len() + i] == r2[i]);
    }
    assert(r1 =~= r2);
}

/// A spelled-out boolean determines itself and what follows.
proof fn lemma_bool_split(b1: bool, r1: Seq<u8>, b2: bool, r2: Seq<u8>)
    requires
        (if b1 {
            lit_true()
        } else {
            lit_false()
        }) + r1 == (if b2 {
            lit_true()
        } else {
            lit_false()
        }) + r2,
    ensures
        b1 == b2,
        r1 == r2,
{
    let t = (if b1 { lit_true() } else { lit_false() }) + r1;
    if b1 != b2 {
        assert(t[0] == (if b1 { 't' as u8 } else { 'f' as u8 }));
        assert(t[0] == (if b2 { 't' as u8 } else { 'f' as u8 }));
        assert(false);
    }
    lemma_cancel_prefix((if b1 { lit_true() } else { lit_false() }), r1, r2);
}

/// One encoded stack determines its fields and what follows.
#[verifier::rlimit(100)]
proof fn lemma_enc_item_split(i1: InventoryItem, r1: Seq<u8>, i2: InventoryItem, r2: Seq<u8>)
    requires
        plain_text(i1.id@),
        plain_text(i2.id@),
        enc_item(i1) + r1 == enc_item(i2) + r2,
    ensures
        i1.id@ == i2.id@,
        i1.quantity == i2.quantity,
        i1.stackable == i2.stackable,
        r1 == r2,
{
    let quantity_tail = seq![(',' as u8), ('"' as u8), ('q' as u8), ('u' as u8), ('a' as u8), ('n' as u8), ('t' as u8), ('i' as u8), ('t' as u8), ('y' as u8), ('"' as u8), (':' as u8)];
    assert(lit_quantity() =~= seq![('"' as u8)] + quantity_tail);
    let bool1 = if i1.stackable { lit_true() } else { lit_false() };
    let bool2 = if i2.stackable { lit_true() } else { lit_false() };
    let after_str1 = quantity_tail + dec_of(i1.quantity as nat) + lit_stackable() + bool1 + seq![('}' as u8)] + r1;
    let after_str2 = quantity_tail + dec_of(i2.quantity as nat) + lit_stackable() + bool2 + seq![('}' as u8)] + r2;
    assert(enc_item(i1) + r1 =~= lit_id() + (enc_str(i1.id@) + seq![('"' as u8)] + after_str1));
    assert(enc_item(i2) + r2 =~= lit_id() + (enc_str(i2.id@) + seq![('"' as u8)] + after_str2));
    lemma_cancel_prefix(
        lit_id(),
        enc_str(i1.id@) + seq![('"' as u8)] + after_str1,
        enc_str(i2.id@) + seq![('"' as u8)] + after_str2,
    );
    lemma_quote_split(i1.id@, after_str1, i2.id@, after_str2);
    let after_q1 = lit_stackable() + bool1 + seq![('}' as u8)] + r1;
    let after_q2 = lit_stackable() + bool2 + seq![('}' as u8)] + r2;
    assert(after_str1 =~= quantity_tail + (dec_of(i1.quantity as nat) + after_q1));
    assert(after_str2 =~= quantity_tail + (dec_of(i2.quantity as nat) + after_q2));
    lemma_cancel_prefix(
        quantity_tail,
        dec_of(i1.quantity as nat) + after_q1,
        dec_of(i2.quantity as nat) + after_q2,
    );
    assert(after_q1[0] == 44 && after_q2[0] == 44);
    lemma_digits_split(i1.quantity, after_q1, i2.quantity, after_q2);
    let after_s1 = bool1 + (seq![('}' as u8)] + r1);
    let after_s2 = bool2 + (seq![('}' as u8)] + r2);
    assert(after_q1 =~= lit_stackable() + after_s1);
    assert(after_q2 =~= lit_stackable() + after_s2);
    lemma_cancel_prefix(lit_stackable(), after_s1, after_s2);
    lemma_bool_split(i1.stackable, seq![('}' as u8)] + r1, i2.stackable, seq![('}' as u8)] + r2);
    lemma_cancel_prefix(seq![('}' as u8)], r1, r2);
}

/// An encoded stack list is never empty of bytes unless the list is empty,
/// and always opens with a brace.
proof fn lemma_enc_items_first_byte(v: Seq<InventoryItem>)
    requires
        v.len() > 0,
    ensures
        enc_items(v).len() > 0,
        enc_items(v)[0] == 123,
    decreases v.len(),
{
    if v.len() == 1 {
        assert(enc_item(v[0])[0] == lit_id()[0]);
    } else {
        lemma_enc_items_first_byte(v.drop_last());
    }
}

/// Unfolding an encoded stack list from the front: the first stack, then a
/// comma and the rest.
proof fn lemma_enc_items_left_unfold(v: Seq<InventoryItem>)
    requires
        v.len() >= 1,
    ensures
        enc_items(v) == enc_item(v[0]) + (if v.len() == 1 {
            Seq::<u8>::empty()
        } else {
            seq![(',' as u8)] + enc_items(v.skip(1))
        }),
    decreases v.len(),
{
    if v.len() == 1 {
        assert(enc_items(v) =~= enc_item(v[0]) + Seq::<u8>::empty());
    } else if v.len() == 2 {
        assert(v.drop_last() =~= seq![v[0]]);
        assert(v.skip(1) =~= seq![v[1]]);
        assert(v.last() == v[1]);
        assert(enc_items(seq![v[0]]) == enc_item(v[0]));
        assert(enc_items(seq![v[1]]) == enc_item(v[1]));
        assert(enc_items(v) == enc_items(v.drop_last()) + seq![(',' as u8)] + enc_item(v.last()));
        assert(enc_items(v) =~= enc_item(v[0]) + (seq![(',' as u8)] + enc_items(v.skip(1))));
    } else {
        lemma_enc_items_left_unfold(v.drop_last());
        assert(v.drop_last()[0] == v[0]);
        assert(v.drop_last().skip(1) =~= v.skip(1).drop_last());
        assert(v.skip(1).last() == v.last());
        assert(v.skip(1).len() >= 2);
        assert(enc_items(v.skip(1)) == enc_items(v.skip(1).drop_last()) + seq![(',' as u8)]
            + enc_item(v.skip(1).last()));
        assert(enc_items(v) == enc_items(v.drop_last()) + seq![(',' as u8)] + enc_item(v.last()));
        assert(enc_items(v.drop_last()) == enc_item(v[0]) + (seq![(',' as u8)] + enc_items(
            v.drop_last().skip(1),
        )));
        assert(enc_items(v) =~= enc_item(v[0]) + (seq![(',' as u8)] + enc_items(v.skip(1))));
    }
}

/// A bracket-terminated encoded stack list determines every stack and what
/// follows.
#[verifier::rlimit(100)]
proof fn lemma_items_split(v1: Seq<InventoryItem>, r1: Seq<u8>, v2: Seq<InventoryItem>, r2: Seq<u8>)
    requires
        forall|k: int| 0 <= k < v1.len() ==> plain_text((#[trigger] v1[k]).id@),
        forall|k: int| 0 <= k < v2.len() ==> plain_text((#[trigger] v2[k]).id@),
        r1.len() > 0,
        r2.len() > 0,
        r1[0] == 93,
        r2[0] == 93,
        enc_items(v1) + r1 == enc_items(v2) + r2,
    ensures
        v1.len() == v2.len(),
        forall|k: int|
            #![trigger v1[k], v2[k]]
            0 <= k < v1.len() ==> v1[k].id@ == v2[k].id@ && v1[k].quantity == v2[k].quantity
                && v1[k].stackable == v2[k].stackable,
        r1 == r2,
    decreases v1.len(),
{
    let t = enc_items(v1) + r1;
    if v1.len() == 0 && v2.len() == 0 {
        assert(enc_items(v1) =~= Seq::<u8>::empty());
        lemma_cancel_prefix(Seq::<u8>::empty(), r1, r2);
    } else if v1.len() == 0 {
        lemma_enc_items_first_byte(v2);
        assert(t[0] == r1[0]);
        assert(t[0] == enc_items(v2)[0]);
        assert(false);
    } else if v2.len() == 0 {
        lemma_enc_items_first_byte(v1);
        assert(t[0] == enc_items(v1)[0]);
        assert(t[0] == r2[0]);
        assert(false);
    } else {
        lemma_enc_items_left_unfold(v1);
        lemma_enc_items_left_unfold(v2);
        let tail1 = (if v1.len() == 1 {
            Seq::<u8>::empty()
        } else {
            seq![(',' as u8)] + enc_items(v1.skip(1))
        }) + r1;
        let tail2 = (if v2.len() == 1 {
            Seq::<u8>::empty()
        } else {
            seq![(',' as u8)] + enc_items(v2.skip(1))
        }) + r2;
        assert(enc_item(v1[0]) + tail1 =~= t);
        assert(enc_item(v2[0]) + tail2 =~= enc_items(v2) + r2);
        lemma_enc_item_split(v1[0], tail1, v2[0], tail2);
        if v1.len() == 1 && v2.len() == 1 {
            assert(tail1 =~= r1 && tail2 =~= r2);
            assert forall|k: int|
                #![trigger v1[k], v2[k]]
                0 <= k < v1.len() implies v1[k].id@ == v2[k].id@ && v1[k].quantity
                == v2[k].quantity && v1[k].stackable == v2[k].stackable by {
                assert(k == 0);
            }
        } else if v1.len() == 1 {
            assert(tail1[0] == r1[0]);
            lemma_enc_items_first_byte(v2.skip(1));
            assert(tail2[0] == 44);
            assert(false);
        } else if v2.len() == 1 {
            assert(tail2[0] == r2[0]);
            lemma_enc_items_first_byte(v1.skip(1));
            assert(tail1[0] == 44);
            assert(false);
        } else {
            assert(tail1 =~= seq![(',' as u8)] + (enc_items(v1.skip(1)) + r1));
            assert(tail2 =~= seq![(',' as u8)] + (enc_items(v2.skip(1)) + r2));
            lemma_cancel_prefix(
                seq![(',' as u8)],
                enc_items(v1.skip(1)) + r1,
                enc_items(v2.skip(1)) + r2,
            );
            assert(forall|k: int|
                0 <= k < v1.skip(1).len() ==> #[trigger] v1.skip(1)[k] == v1[k + 1]);
            assert(forall|k: int|
                0 <= k < v2.skip(1).len() ==> #[trigger] v2.skip(1)[k] == v2[k + 1]);
            lemma_items_split(v1.skip(1), r1, v2.skip(1), r2);
            assert forall|k: int|
                #![trigger v1[k], v2[k]]
                0 <= k < v1.len() implies v1[k].id@ == v2[k].id@ && v1[k].quantity
                == v2[k].quantity && v1[k].stackable == v2[k].stackable by {
                if k > 0 {
                    assert(v1.skip(1)[k - 1] == v1[k]);
                    assert(v2.skip(1)[k - 1] == v2[k]);
                }
            }
        }
    }
}

/// Round-trip law: the canonical form is lossless. Two plain records with
/// the same encoding agree field for field, so with `encode_record`
/// writing exactly `enc_record` and `decode_record` accepting only the
/// exact encoding of what it returns, whatever the decoder reads back
/// from an encoded record matches the record it came from.
#[verifier::rlimit(100)]
pub proof fn lemma_enc_record_injective(rec1: EntityRecord, rec2: EntityRecord)
    requires
        rec_plain(rec1),
        rec_plain(rec2),
        enc_record(rec1) == enc_record(rec2),
    ensures
        rec1.key@ == rec2.key@,
        rec1.kind@ == rec2.kind@,
        rec1.items@.len() == rec2.items@.len(),
        forall|k: int|
            #![trigger rec1.items@[k], rec2.items@[k]]
            0 <= k < rec1.items@.len() ==> rec1.items@[k].id@ == rec2.items@[k].id@
                && rec1.items@[k].quantity == rec2.items@[k].quantity
                && rec1.items@[k].stackable == rec2.items@[k].stackable,
{
    let kind_tail = seq![(',' as u8), ('"' as u8), ('k' as u8), ('i' as u8), ('n' as u8), ('d' as u8), ('"' as u8), (':' as u8), ('"' as u8)];
    let items_tail = seq![(',' as u8), ('"' as u8), ('i' as u8), ('t' as u8), ('e' as u8), ('m' as u8), ('s' as u8), ('"' as u8), (':' as u8), ('[' as u8)];
    assert(lit_kind() =~= seq![('"' as u8)] + kind_tail);
    assert(lit_items() =~= seq![('"' as u8)] + items_tail);
    let after_key1 = kind_tail + enc_str(rec1.kind@) + seq![('"' as u8)] + items_tail + enc_items(rec1.items@) + lit_end();
    let after_key2 = kind_tail + enc_str(rec2.kind@) + seq![('"' as u8)] + items_tail + enc_items(rec2.items@) + lit_end();
    assert(enc_record(rec1) =~= lit_key() + (enc_str(rec1.key@) + seq![('"' as u8)] + after_key1));
    assert(enc_record(rec2) =~= lit_key() + (enc_str(rec2.key@) + seq![('"' as u8)] + after_key2));
    lemma_cancel_prefix(
        lit_key(),
        enc_str(rec1.key@) + seq![('"' as u8)] + after_key1,
        enc_str(rec2.key@) + seq![('"' as u8)] + after_key2,
    );
    lemma_quote_split(rec1.key@, after_key1, rec2.key@, after_key2);
    let after_kind1 = items_tail + (enc_items(rec1.items@) + lit_end());
    let after_kind2 = items_tail + (enc_items(rec2.items@) + lit_end());
    assert(after_key1 =~= kind_tail + (enc_str(rec1.kind@) + seq![('"' as u8)] + after_kind1));
    assert(after_key2 =~= kind_tail + (enc_str(rec2.kind@) + seq![('"' as u8)] + after_kind2));
    lemma_cancel_prefix(
        kind_tail,
        enc_str(rec1.kind@) + seq![('"' as u8)] + after_kind1,
        enc_str(rec2.kind@) + seq![('"' as u8)] + after_kind2,
    );
    lemma_quote_split(rec1.kind@, after_kind1, rec2.kind@, after_kind2);
    lemma_cancel_prefix(
        items_tail,
        enc_items(rec1.items@) + lit_end(),
        enc_items(rec2.items@) + lit_end(),
    );
    lemma_items_split(rec1.items@, lit_end(), rec2.items@, lit_end());
}


/// A byte the canonical form stores inside a quoted string: the byte of a
/// plain character.
pub open spec fn byte_plain(b: u8) -> bool {
    32 <= b <= 126 && b != 34 && b != 92
}

/// A quote closes a plain run that begins at `pos`.
pub open spec fn quote_terminated(bytes: Seq<u8>, pos: int) -> bool {
    exists|e: int|
        pos <= e < bytes.len() && (#[trigger] bytes[e]) == 34 && (forall|k: int|
            pos <= k < e ==> byte_plain(#[trigger] bytes[k]))
}

/// The canonical digits of `v` sit at `pos`, ended by a non-digit or the
/// end of the bytes.
pub open spec fn number_at(bytes: Seq<u8>, pos: int, v: u32) -> bool {
    &&& 0 <= pos
    &&& pos + dec_of(v as nat).len() as int <= bytes.len()
    &&& bytes.subrange(pos, pos + dec_of(v as nat).len() as int) == dec_of(v as nat)
    &&& (pos + dec_of(v as nat).len() as int == bytes.len() || !(48 <= bytes[pos + dec_of(
        v as nat,
    ).len() as int] <= 57))
}

/// The canonical form of the stack `it` sits at `pos`.
pub open spec fn item_at(bytes: Seq<u8>, pos: int, it: InventoryItem) -> bool {
    &&& plain_text(it.id@)
    &&& 0 <= pos
    &&& pos + enc_item(it).len() as int <= bytes.len()
    &&& bytes.subrange(pos, pos + enc_item(it).len() as int) == enc_item(it)
}

/// The canonical stack list `v` sits at `pos`, with the closing bracket
/// right after it.
pub open spec fn items_at(bytes: Seq<u8>, pos: int, v: Seq<InventoryItem>) -> bool {
    &&& forall|k: int| 0 <= k < v.len() ==> plain_text((#[trigger] v[k]).id@)
    &&& 0 <= pos
    &&& pos + (enc_items(v).len() as int) < bytes.len()
    &&& bytes.subrange(pos, pos + enc_items(v).len() as int) == enc_items(v)
    &&& bytes[pos + enc_items(v).len() as int] == 93
}

/// `dec_of` starts with a nonzero digit for every nonzero number.
proof fn lemma_dec_of_leading(n: nat)
    ensures
        n >= 1 ==> dec_of(n)[0] != 48,
    decreases n,
{
    if n >= 10 {
        lemma_dec_of_leading(n / 10);
        lemma_dec_of_digits_range(n / 10);
        assert(dec_of(n)[0] == dec_of(n / 10)[0]);
    }
}

/// The value of any front part of `dec_of(n)` stays within `n`.
proof fn lemma_dec_prefix_bound(n: nat, k: int)
    requires
        0 <= k <= dec_of(n).len(),
    ensures
        0 <= digits_val(dec_of(n).take(k)) <= n,
    decreases n,
{
    if k == 0 {
        assert(dec_of(n).take(0) =~= Seq::<u8>::empty());
    } else if n < 10 {
        assert(dec_of(n).take(k) =~= dec_of(n));
        lemma_val_of_dec(n);
    } else if k == dec_of(n).len() {
        assert(dec_of(n).take(k) =~= dec_of(n));
        lemma_val_of_dec(n);
    } else {
        assert(dec_of(n).take(k) =~= dec_of(n / 10).take(k));
        lemma_dec_prefix_bound(n / 10, k);
        assert(n / 10 <= n) by (nonlinear_arith);
    }
}

/// A plain run has one first quote: two quote positions with only plain
/// bytes before each are the same position.
proof fn lemma_first_quote_unique(bytes: Seq<u8>, start: int, e1: int, e2: int)
    requires
        start <= e1 < bytes.len(),
        start <= e2 < bytes.len(),
        bytes[e1] == 34,
        bytes[e2] == 34,
        forall|k: int| start <= k < e1 ==> byte_plain(#[trigger] bytes[k]),
        forall|k: int| start <= k < e2 ==> byte_plain(#[trigger] bytes[k]),
    ensures
        e1 == e2,
{
    if e1 < e2 {
        assert(byte_plain(bytes[e1]));
    }
    if e2 < e1 {
        assert(byte_plain(bytes[e2]));
    }
}

/// A digit run has one end: two positions ending a digit run that begins
/// at `start` are the same position.
proof fn lemma_digit_run_end_unique(bytes: Seq<u8>, start: int, e1: int, e2: int)
    requires
        start <= e1 <= bytes.len(),
        start <= e2 <= bytes.len(),
        forall|k: int| start <= k < e1 ==> 48 <= #[trigger] bytes[k] <= 57,
        forall|k: int| start <= k < e2 ==> 48 <= #[trigger] bytes[k] <= 57,
        e1 == bytes.len() || !(48 <= bytes[e1] <= 57),
        e2 == bytes.len() || !(48 <= bytes[e2] <= 57),
    ensures
        e1 == e2,
{
    if e1 < e2 {
        assert(48 <= bytes[e1] <= 57);
    }
    if e2 < e1 {
        assert(48 <= bytes[e2] <= 57);
    }
}

/// A part of a matched region matches the same part of its image.
proof fn lemma_subrange_of_eq(bytes: Seq<u8>, pos: int, a: int, b: int, total: Seq<u8>)
    requires
        0 <= pos,
        pos + total.len() as int <= bytes.len(),
        bytes.subrange(pos, pos + total.len() as int) == total,
        0 <= a <= b <= total.len(),
    ensures
        bytes.subrange(pos + a, pos + b) == total.subrange(a, b),
{
    assert forall|i: int| 0 <= i < b - a implies bytes.subrange(pos + a, pos + b)[i]
        == total.subrange(a, b)[i] by {
        assert(bytes.subrange(pos, pos + total.len() as int)[a + i] == bytes[pos + a + i]);
    }
    assert(bytes.subrange(pos + a, pos + b) =~= total.subrange(a, b));
}

/// Splitting an encoded stack list at an interior boundary: the front
/// stacks, a comma, the back stacks.
proof fn lemma_enc_items_split_at(v: Seq<InventoryItem>, k: int)
    requires
        1 <= k < v.len(),
    ensures
        enc_items(v) == enc_items(v.take(k)) + seq![(',' as u8)] + enc_items(v.skip(k)),
    decreases v.len(),
{
    if k == v.len() - 1 {
        assert(v.take(k) =~= v.drop_last());
        assert(v.skip(k) =~= seq![v.last()]);
        assert(enc_items(seq![v.last()]) == enc_item(v.last()));
    } else {
        lemma_enc_items_split_at(v.drop_last(), k);
        assert(v.drop_last().take(k) =~= v.take(k));
        assert(v.drop_last().skip(k) =~= v.skip(k).drop_last());
        assert(v.skip(k).last() == v.last());
        assert(v.skip(k).len() >= 2);
        assert(enc_items(v.skip(k)) == enc_items(v.skip(k).drop_last()) + seq![(',' as u8)]
            + enc_item(v.skip(k).last()));
        assert(enc_items(v) == enc_items(v.drop_last()) + seq![(',' as u8)] + enc_item(v.last()));
        assert(enc_items(v) =~= enc_items(v.take(k)) + seq![(',' as u8)] + enc_items(v.skip(k)));
    }
}

/// The byte lengths and segments of one encoded stack.
proof fn lemma_enc_item_segments(it: InventoryItem)
    ensures
        enc_item(it).len() == 7 + it.id@.len() as int + 13 + dec_of(it.quantity as nat).len() as int + 13 + (
        if it.stackable {
            4int
        } else {
            5int
        }) + 1,
        enc_item(it).subrange(0, 7) == lit_id(),
        enc_item(it).subrange(7, 7 + it.id@.len() as int) == enc_str(it.id@),
        enc_item(it).subrange(7 + it.id@.len() as int, 20 + it.id@.len() as int) == lit_quantity(),
        enc_item(it).subrange(
            20 + it.id@.len() as int,
            20 + it.id@.len() as int + dec_of(it.quantity as nat).len() as int,
        ) == dec_of(it.quantity as nat),
        enc_item(it).subrange(
            20 + it.id@.len() as int + dec_of(it.quantity as nat).len() as int,
            33 + it.id@.len() as int + dec_of(it.quantity as nat).len() as int,
        ) == lit_stackable(),
        enc_item(it).subrange(
            33 + it.id@.len() as int + dec_of(it.quantity as nat).len() as int,
            33 + it.id@.len() as int + dec_of(it.quantity as nat).len() as int + (if it.stackable {
                4int
            } else {
                5int
            }),
        ) == (if it.stackable {
            lit_true()
        } else {
            lit_false()
        }),
        enc_item(it).subrange(
            enc_item(it).len() as int - 1,
            enc_item(it).len() as int,
        ) == seq![('}' as u8)],
{
    assert(enc_item(it).subrange(0, 7) =~= lit_id());
    assert(enc_item(it).subrange(7, 7 + it.id@.len() as int) =~= enc_str(it.id@));
    assert(enc_item(it).subrange(7 + it.id@.len() as int, 20 + it.id@.len() as int) =~= lit_quantity());
    assert(enc_item(it).subrange(
        20 + it.id@.len() as int,
        20 + it.id@.len() as int + dec_of(it.quantity as nat).len() as int,
    ) =~= dec_of(it.quantity as nat));
    assert(enc_item(it).subrange(
        20 + it.id@.len() as int + dec_of(it.quantity as nat).len() as int,
        33 + it.id@.len() as int + dec_of(it.quantity as nat).len() as int,
    ) =~= lit_stackable());
    assert(enc_item(it).subrange(
        33 + it.id@.len() as int + dec_of(it.quantity as nat).len() as int,
        33 + it.id@.len() as int + dec_of(it.quantity as nat).len() as int + (if it.stackable {
            4int
        } else {
            5int
        }),
    ) =~= (if it.stackable {
        lit_true()
    } else {
        lit_false()
    }));
    assert(enc_item(it).subrange(enc_item(it).len() as int - 1, enc_item(it).len() as int)
        =~= seq![('}' as u8)]);
}

/// The byte lengths and segments of one encoded record.
proof fn lemma_enc_record_segments(rec: EntityRecord)
    ensures
        enc_record(rec).len() == 8 + rec.key@.len() as int + 10 + rec.kind@.len() as int + 11 + enc_items(
            rec.items@,
        ).len() as int + 2,
        enc_record(rec).subrange(0, 8) == lit_key(),
        enc_record(rec).subrange(8, 8 + rec.key@.len() as int) == enc_str(rec.key@),
        enc_record(rec).subrange(8 + rec.key@.len() as int, 18 + rec.key@.len() as int) == lit_kind(),
        enc_record(rec).subrange(
            18 + rec.key@.len() as int,
            18 + rec.key@.len() as int + rec.kind@.len() as int,
        ) == enc_str(rec.kind@),
        enc_record(rec).subrange(
            18 + rec.key@.len() as int + rec.kind@.len() as int,
            29 + rec.key@.len() as int + rec.kind@.len() as int,
        ) == lit_items(),
        enc_record(rec).subrange(
            29 + rec.key@.len() as int + rec.kind@.len() as int,
            29 + rec.key@.len() as int + rec.kind@.len() as int + enc_items(rec.items@).len() as int,
        ) == enc_items(rec.items@),
        enc_record(rec).subrange(
            enc_record(rec).len() as int - 2,
            enc_record(rec).len() as int,
        ) == lit_end(),
{
    assert(enc_record(rec).subrange(0, 8) =~= lit_key());
    assert(enc_record(rec).subrange(8, 8 + rec.key@.len() as int) =~= enc_str(rec.key@));
    assert(enc_record(rec).subrange(8 + rec.key@.len() as int, 18 + rec.key@.len() as int) =~= lit_kind());
    assert(enc_record(rec).subrange(
        18 + rec.key@.len() as int,
        18 + rec.key@.len() as int + rec.kind@.len() as int,
    ) =~= enc_str(rec.kind@));
    assert(enc_record(rec).subrange(
        18 + rec.key@.len() as int + rec.kind@.len() as int,
        29 + rec.key@.len() as int + rec.kind@.len() as int,
    ) =~= lit_items());
    assert(enc_record(rec).subrange(
        29 + rec.key@.len() as int + rec.kind@.len() as int,
        29 + rec.key@.len() as int + rec.kind@.len() as int + enc_items(rec.items@).len() as int,
    ) =~= enc_items(rec.items@));
    assert(enc_record(rec).subrange(enc_record(rec).len() as int - 2, enc_record(rec).len() as int)
        =~= lit_end());
}

} // verus!
