use vstd::prelude::*;
use vstd::bytes::{
    lemma_auto_spec_u64_to_from_le_bytes, spec_u64_from_le_bytes, spec_u64_to_le_bytes,
    u64_from_le_bytes, u64_to_le_bytes,
};
use vstd::slice::{slice_index_get, slice_subrange, slice_to_vec};
use vstd::string::StringSliceAdditionalSpecFns;
use vstd::utf8::{
    decode_utf8, decode_utf8_encode_utf8, encode_utf8, encode_utf8_decode_utf8,
    encode_utf8_valid_utf8, valid_utf8,
};
use crate::error::DatabaseError;

verus! {

/// What a database looks like on its way to or from a file: the metadata,
/// and each record already turned into its own bytes.  Framing these parts
/// into one byte image, and recovering them from one, is this module's
/// work; turning a record into bytes is the embedding program's.
#[derive(Debug)]
pub struct Dump {
    /// The database's label.
    pub label: String,
    /// The database's explicit save location, when it has one.
    pub save_path: Option<String>,
    /// The database's duplicate policy.
    pub strict_dupes: bool,
    /// The records, each as the byte string that encodes it.
    pub items: Vec<Vec<u8>>,
}

/// The mathematical content of a [`Dump`].
#[verifier::ext_equal]
pub struct DumpView {
    pub label: Seq<char>,
    pub save_path: Option<Seq<char>>,
    pub strict_dupes: bool,
    pub items: Seq<Seq<u8>>,
}

/// The byte strings a sequence of record byte vectors holds.
pub open spec fn blobs_view(items: Seq<Vec<u8>>) -> Seq<Seq<u8>> {
    items.map_values(|v: Vec<u8>| v@)
}

impl View for Dump {
    type V = DumpView;

    open spec fn view(&self) -> DumpView {
        DumpView {
            label: self.label@,
            save_path: match self.save_path {
                Some(p) => Some(p@),
                None => None,
            },
            strict_dupes: self.strict_dupes,
            items: blobs_view(self.items@),
        }
    }
}

/// A byte string framed by its length: eight little-endian bytes of count,
/// then the bytes themselves.
pub open spec fn spec_encode_blob(b: Seq<u8>) -> Seq<u8> {
    spec_u64_to_le_bytes(b.len() as u64) + b
}

/// A piece of text framed as its UTF-8 bytes behind their length.
pub open spec fn spec_encode_text(s: Seq<char>) -> Seq<u8> {
    spec_encode_blob(encode_utf8(s))
}

/// Length-framed byte strings, one after the other.
pub open spec fn spec_encode_blobs(bs: Seq<Seq<u8>>) -> Seq<u8>
    decreases bs.len(),
{
    if bs.len() == 0 {
        Seq::empty()
    } else {
        spec_encode_blob(bs.first()) + spec_encode_blobs(bs.drop_first())
    }
}

/// The byte image of a whole dump: the label, then the optional save path
/// behind a one-byte presence flag, then the duplicate policy as one byte,
/// then the records behind their count.
pub open spec fn spec_encode_dump(v: DumpView) -> Seq<u8> {
    spec_encode_text(v.label) + (match v.save_path {
        None => seq![0u8],
        Some(p) => seq![1u8] + spec_encode_text(p),
    }) + seq![(if v.strict_dupes {
        1u8
    } else {
        0u8
    })] + spec_u64_to_le_bytes(v.items.len() as u64) + spec_encode_blobs(v.items)
}

/// Every framed length fits the eight bytes that frame it.  This holds of
/// any dump that exists at run time, since no in-memory byte string is
/// longer than the address space.
pub open spec fn bounded(v: DumpView) -> bool {
    &&& encode_utf8(v.label).len() <= u64::MAX
    &&& (match v.save_path {
        Some(p) => encode_utf8(p).len() <= u64::MAX,
        None => true,
    })
    &&& v.items.len() <= u64::MAX
    &&& forall|i: int| 0 <= i < v.items.len() ==> #[trigger] v.items[i].len() <= u64::MAX
}

/// Reads eight little-endian bytes at `i` as a number; fails past the end.
pub open spec fn spec_parse_u64(b: Seq<u8>, i: int) -> Option<(u64, int)> {
    if 0 <= i && i + 8 <= b.len() {
        Some((spec_u64_from_le_bytes(b.subrange(i, i + 8)), i + 8))
    } else {
        None
    }
}

/// Reads a length-framed byte string at `i`; fails when the frame or the
/// bytes it announces run past the end.
pub open spec fn spec_parse_blob(b: Seq<u8>, i: int) -> Option<(Seq<u8>, int)> {
    match spec_parse_u64(b, i) {
        Some((n, j)) => if j + n <= b.len() {
            Some((b.subrange(j, j + n), j + n))
        } else {
            None
        },
        None => None,
    }
}

/// Reads a length-framed piece of text at `i`; fails when the bytes are
/// not valid UTF-8.
pub open spec fn spec_parse_text(b: Seq<u8>, i: int) -> Option<(Seq<char>, int)> {
    match spec_parse_blob(b, i) {
        Some((bytes, j)) => if valid_utf8(bytes) {
            Some((decode_utf8(bytes), j))
        } else {
            None
        },
        None => None,
    }
}

/// Reads `n` length-framed byte strings, one after the other.
pub open spec fn spec_parse_blobs(b: Seq<u8>, i: int, n: nat) -> Option<(Seq<Seq<u8>>, int)>
    decreases n,
{
    if n == 0 {
        Some((Seq::empty(), i))
    } else {
        match spec_parse_blob(b, i) {
            Some((blob, j)) => match spec_parse_blobs(b, j, (n - 1) as nat) {
                Some((rest, end)) => Some((seq![blob] + rest, end)),
                None => None,
            },
            None => None,
        }
    }
}

/// Reads an optional piece of text behind its one-byte presence flag; any
/// flag byte but zero and one is malformed.
pub open spec fn spec_parse_opt_text(b: Seq<u8>, i: int) -> Option<(Option<Seq<char>>, int)> {
    if 0 <= i && i < b.len() {
        if b[i] == 0 {
            Some((None, i + 1))
        } else if b[i] == 1 {
            match spec_parse_text(b, i + 1) {
                Some((s, j)) => Some((Some(s), j)),
                None => None,
            }
        } else {
            None
        }
    } else {
        None
    }
}

/// Reads one byte as a truth value; any byte but zero and one is
/// malformed.
pub open spec fn spec_parse_bool(b: Seq<u8>, i: int) -> Option<(bool, int)> {
    if 0 <= i && i < b.len() && (b[i] == 0 || b[i] == 1) {
        Some((b[i] == 1, i + 1))
    } else {
        None
    }
}

/// What a byte image holds, when it is well formed from its first byte to
/// its last: the inverse of [`spec_encode_dump`].
pub open spec fn spec_decode_dump(b: Seq<u8>) -> Option<DumpView> {
    match spec_parse_text(b, 0) {
        Some((label, i1)) => match spec_parse_opt_text(b, i1) {
            Some((save_path, i2)) => match spec_parse_bool(b, i2) {
                Some((strict_dupes, i3)) => match spec_parse_u64(b, i3) {
                    Some((count, i4)) => match spec_parse_blobs(b, i4, count as nat) {
                        Some((items, end)) => if end == b.len() {
                            Some(DumpView { label, save_path, strict_dupes, items })
                        } else {
                            None
                        },
                        None => None,
                    },
                    None => None,
                },
                None => None,
            },
            None => None,
        },
        None => None,
    }
}

/// Relies on std's `String::from_utf8`: it succeeds on exactly the valid
/// UTF-8 byte strings, and decodes the bytes it accepts.
#[verifier::external_body]
fn string_from_utf8(v: Vec<u8>) -> (r: Option<String>)
    ensures
        match r {
            Some(s) => valid_utf8(v@) && s@ == decode_utf8(v@),
            None => !valid_utf8(v@),
        },
{
    match String::from_utf8(v) {
        Ok(s) => Some(s),
        Err(_) => None,
    }
}

/// Appends a slice's bytes.
fn append_bytes(out: &mut Vec<u8>, b: &[u8])
    ensures
        final(out)@ == old(out)@ + b@,
{
    let n = b.len();
    let mut k: usize = 0;
    while k < n
        invariant
            n == b@.len(),
            k <= n,
            out@ == old(out)@ + b@.subrange(0, k as int),
        decreases n - k,
    {
        let x = *slice_index_get(b, k);
        out.push(x);
        proof {
            assert(old(out)@ + b@.subrange(0, k as int) + seq![b@[k as int]] =~= old(out)@
                + b@.subrange(0, k as int + 1));
        }
        k += 1;
    }
    proof {
        assert(b@.subrange(0, n as int) =~= b@);
    }
}

/// Appends a number as its eight little-endian bytes.
fn append_u64(out: &mut Vec<u8>, x: u64)
    ensures
        final(out)@ == old(out)@ + spec_u64_to_le_bytes(x),
{
    let bytes = u64_to_le_bytes(x);
    append_bytes(out, bytes.as_slice());
}

/// Appends a piece of text as its length-framed UTF-8 bytes.
fn append_text(out: &mut Vec<u8>, s: &str)
    ensures
        final(out)@ == old(out)@ + spec_encode_text(s@),
{
    let bytes = s.as_bytes();
    append_u64(out, bytes.len() as u64);
    append_bytes(out, bytes);
    proof {
        assert(old(out)@ + spec_u64_to_le_bytes(bytes@.len() as u64) + bytes@ =~= old(out)@
            + spec_encode_text(s@));
    }
}

/// Frames a dump into the one byte image that [`spec_encode_dump`]
/// describes.
pub fn encode_dump(d: &Dump) -> (r: Vec<u8>)
    ensures
        r@ == spec_encode_dump(d@),
{
    let mut out: Vec<u8> = Vec::new();
    append_text(&mut out, d.label.as_str());
    match &d.save_path {
        None => out.push(0u8),
        Some(p) => {
            out.push(1u8);
            append_text(&mut out, p.as_str());
        },
    }
    if d.strict_dupes {
        out.push(1u8);
    } else {
        out.push(0u8);
    }
    append_u64(&mut out, d.items.len() as u64);
    let ghost head = out@;
    let n = d.items.len();
    let mut i: usize = 0;
    while i < n
        invariant
            n == d.items@.len(),
            i <= n,
            out@ == head + spec_encode_blobs(blobs_view(d.items@).take(i as int)),
        decreases n - i,
    {
        let blob = &d.items[i];
        append_u64(&mut out, blob.len() as u64);
        append_bytes(&mut out, blob.as_slice());
        proof {
            let bs = blobs_view(d.items@);
            assert(bs[i as int] == d.items@[i as int]@);
            lemma_encode_blobs_snoc(bs.take(i as int), bs[i as int]);
            assert(bs.take(i as int).push(bs[i as int]) =~= bs.take(i as int + 1));
            assert(head + spec_encode_blobs(bs.take(i as int)) + spec_u64_to_le_bytes(
                blob@.len() as u64,
            ) + blob@ =~= head + spec_encode_blobs(bs.take(i as int + 1)));
        }
        i += 1;
    }
    proof {
        let bs = blobs_view(d.items@);
        assert(bs.take(n as int) =~= bs);
        assert(out@ =~= spec_encode_dump(d@));
    }
    out
}

/// Appending one more byte string to a framed run frames it at the end.
proof fn lemma_encode_blobs_snoc(bs: Seq<Seq<u8>>, b: Seq<u8>)
    ensures
        spec_encode_blobs(bs.push(b)) == spec_encode_blobs(bs) + spec_encode_blob(b),
    decreases bs.len(),
{
    let whole = bs.push(b);
    if bs.len() == 0 {
        assert(whole.first() == b);
        assert(whole.drop_first() =~= Seq::<Seq<u8>>::empty());
        assert(spec_encode_blobs(Seq::<Seq<u8>>::empty()) == Seq::<u8>::empty());
        assert(spec_encode_blob(b) + Seq::<u8>::empty() =~= spec_encode_blob(b));
        assert(spec_encode_blobs(whole) =~= spec_encode_blob(b));
        assert(spec_encode_blobs(bs) + spec_encode_blob(b) =~= spec_encode_blob(b));
    } else {
        assert(whole.first() == bs.first());
        assert(whole.drop_first() =~= bs.drop_first().push(b));
        lemma_encode_blobs_snoc(bs.drop_first(), b);
        assert(spec_encode_blob(whole.first()) + (spec_encode_blobs(bs.drop_first())
            + spec_encode_blob(b)) =~= spec_encode_blob(bs.first()) + spec_encode_blobs(
            bs.drop_first(),
        ) + spec_encode_blob(b));
    }
}

/// Reads eight little-endian bytes at `i`, as [`spec_parse_u64`] does.
fn read_u64(b: &[u8], i: usize) -> (r: Option<(u64, usize)>)
    requires
        i <= b@.len(),
    ensures
        match r {
            Some(p) => spec_parse_u64(b@, i as int) == Some((p.0, p.1 as int)) && i < p.1
                <= b@.len(),
            None => spec_parse_u64(b@, i as int) is None,
        },
{
    if b.len() - i >= 8 {
        let s = slice_subrange(b, i, i + 8);
        let x = u64_from_le_bytes(s);
        Some((x, i + 8))
    } else {
        None
    }
}

/// Reads a length-framed byte string at `i`, as [`spec_parse_blob`] does.
fn read_blob(b: &[u8], i: usize) -> (r: Option<(Vec<u8>, usize)>)
    requires
        i <= b@.len(),
    ensures
        match r {
            Some(p) => spec_parse_blob(b@, i as int) == Some((p.0@, p.1 as int)) && i < p.1
                <= b@.len(),
            None => spec_parse_blob(b@, i as int) is None,
        },
{
    match read_u64(b, i) {
        Some((n, j)) => {
            if n <= (b.len() - j) as u64 {
                let m = n as usize;
                let end = j + m;
                let blob = slice_to_vec(slice_subrange(b, j, end));
                Some((blob, end))
            } else {
                None
            }
        },
        None => None,
    }
}

/// Reads a length-framed piece of text at `i`, as [`spec_parse_text`]
/// does.
fn read_text(b: &[u8], i: usize) -> (r: Option<(String, usize)>)
    requires
        i <= b@.len(),
    ensures
        match r {
            Some(p) => spec_parse_text(b@, i as int) == Some((p.0@, p.1 as int)) && i < p.1
                <= b@.len(),
            None => spec_parse_text(b@, i as int) is None,
        },
{
    match read_blob(b, i) {
        Some((blob, j)) => match string_from_utf8(blob) {
            Some(s) => Some((s, j)),
            None => None,
        },
        None => None,
    }
}

/// Recovers from a byte image the dump it frames, as
/// [`spec_decode_dump`] describes; an image that is malformed anywhere,
/// or that does not end where its last record does, fails with
/// [`DatabaseError::DecodeFailed`].
#[verifier::loop_isolation(false)]
pub fn decode_dump(bytes: &[u8]) -> (r: Result<Dump, DatabaseError>)
    ensures
        match spec_decode_dump(bytes@) {
            Some(v) => r matches Ok(d) && d@ == v,
            None => r == Err::<Dump, DatabaseError>(DatabaseError::DecodeFailed),
        },
{
    let (label, i1) = match read_text(bytes, 0) {
        Some(p) => p,
        None => {
            return Err(DatabaseError::DecodeFailed);
        },
    };
    let (save_path, i2) = match read_opt_text(bytes, i1) {
        Some(p) => p,
        None => {
            return Err(DatabaseError::DecodeFailed);
        },
    };
    let (strict_dupes, i3) = match read_bool(bytes, i2) {
        Some(p) => p,
        None => {
            return Err(DatabaseError::DecodeFailed);
        },
    };
    let (count, i4) = match read_u64(bytes, i3) {
        Some(p) => p,
        None => {
            return Err(DatabaseError::DecodeFailed);
        },
    };
    let mut items: Vec<Vec<u8>> = Vec::new();
    let mut cur = i4;
    let mut k: u64 = 0;
    proof {
        assert(blobs_view(items@) =~= Seq::<Seq<u8>>::empty());
        match spec_parse_blobs(bytes@, i4 as int, count as nat) {
            Some((rest, end)) => {
                assert(Seq::<Seq<u8>>::empty() + rest =~= rest);
            },
            None => {},
        }
    }
    while k < count
        invariant
            i4 <= bytes@.len(),
            cur <= bytes@.len(),
            k <= count,
            spec_parse_blobs(bytes@, i4 as int, count as nat) == blobs_from(
                bytes@,
                cur as int,
                (count - k) as nat,
                blobs_view(items@),
            ),
        decreases count - k,
    {
        let (blob, j) = match read_blob(bytes, cur) {
            Some(p) => p,
            None => {
                proof {
                    assert(spec_parse_blobs(bytes@, cur as int, (count - k) as nat) is None);
                    assert(blobs_from(
                        bytes@,
                        cur as int,
                        (count - k) as nat,
                        blobs_view(items@),
                    ) is None);
                    assert(spec_parse_blobs(bytes@, i4 as int, count as nat) is None);
                }
                return Err(DatabaseError::DecodeFailed);
            },
        };
        proof {
            let acc = blobs_view(items@);
            let m = (count - k) as nat;
            assert(spec_parse_blob(bytes@, cur as int) == Some((blob@, j as int)));
            lemma_blobs_view_push(items@, blob);
            match spec_parse_blobs(bytes@, j as int, (m - 1) as nat) {
                Some((rest, end)) => {
                    assert(acc.push(blob@) + rest =~= acc + (seq![blob@] + rest));
                },
                None => {},
            }
        }
        items.push(blob);
        cur = j;
        k = k + 1;
    }
    proof {
        assert(spec_parse_blobs(bytes@, cur as int, 0) == Some(
            (Seq::<Seq<u8>>::empty(), cur as int),
        ));
        assert(blobs_view(items@) + Seq::<Seq<u8>>::empty() =~= blobs_view(items@));
    }
    if cur != bytes.len() {
        return Err(DatabaseError::DecodeFailed);
    }
    let d = Dump { label, save_path, strict_dupes, items };
    proof {
        assert(d@ =~= spec_decode_dump(bytes@)->0);
    }
    Ok(d)
}

/// What a run of framed byte strings parses to, once `acc` has already
/// been read: the bridge between the parsing spec and the reading loop.
spec fn blobs_from(b: Seq<u8>, i: int, n: nat, acc: Seq<Seq<u8>>) -> Option<
    (Seq<Seq<u8>>, int),
> {
    match spec_parse_blobs(b, i, n) {
        Some((rest, end)) => Some((acc + rest, end)),
        None => None,
    }
}

/// Taking one more byte vector into view pushes its bytes.
proof fn lemma_blobs_view_push(items: Seq<Vec<u8>>, b: Vec<u8>)
    ensures
        blobs_view(items.push(b)) == blobs_view(items).push(b@),
{
    assert(blobs_view(items.push(b)) =~= blobs_view(items).push(b@));
}

/// Reads an optional piece of text behind its presence flag at `i`, as
/// [`spec_parse_opt_text`] does.
fn read_opt_text(b: &[u8], i: usize) -> (r: Option<(Option<String>, usize)>)
    requires
        i <= b@.len(),
    ensures
        match r {
            Some(p) => spec_parse_opt_text(b@, i as int) == Some((opt_text_view(p.0), p.1 as int))
                && i < p.1 <= b@.len(),
            None => spec_parse_opt_text(b@, i as int) is None,
        },
{
    if i < b.len() {
        let flag = *slice_index_get(b, i);
        if flag == 0 {
            Some((None, i + 1))
        } else if flag == 1 {
            match read_text(b, i + 1) {
                Some((s, j)) => Some((Some(s), j)),
                None => None,
            }
        } else {
            None
        }
    } else {
        None
    }
}

/// The text an optional string holds.
spec fn opt_text_view(o: Option<String>) -> Option<Seq<char>> {
    match o {
        Some(s) => Some(s@),
        None => None,
    }
}

/// Reads one byte as a truth value at `i`, as [`spec_parse_bool`] does.
fn read_bool(b: &[u8], i: usize) -> (r: Option<(bool, usize)>)
    requires
        i <= b@.len(),
    ensures
        match r {
            Some(p) => spec_parse_bool(b@, i as int) == Some((p.0, p.1 as int)) && i < p.1
                <= b@.len(),
            None => spec_parse_bool(b@, i as int) is None,
        },
{
    if i < b.len() {
        let flag = *slice_index_get(b, i);
        if flag == 0 {
            Some((false, i + 1))
        } else if flag == 1 {
            Some((true, i + 1))
        } else {
            None
        }
    } else {
        None
    }
}


/// Eight framed little-endian bytes parse back to the number that made
/// them.
proof fn lemma_parse_u64_at(b: Seq<u8>, i: int, x: u64)
    requires
        0 <= i,
        i + 8 <= b.len(),
        b.subrange(i, i + 8) == spec_u64_to_le_bytes(x),
    ensures
        spec_parse_u64(b, i) == Some((x, i + 8)),
{
    lemma_auto_spec_u64_to_from_le_bytes();
}

/// A framed byte string parses back to the bytes that were framed.
proof fn lemma_parse_blob_at(b: Seq<u8>, i: int, blob: Seq<u8>)
    requires
        0 <= i,
        blob.len() <= u64::MAX,
        i + 8 + blob.len() <= b.len(),
        b.subrange(i, i + 8 + blob.len()) == spec_encode_blob(blob),
    ensures
        spec_parse_blob(b, i) == Some((blob, i + 8 + blob.len())),
{
    lemma_auto_spec_u64_to_from_le_bytes();
    let n = blob.len() as int;
    let whole = b.subrange(i, i + 8 + n);
    let lenbytes = spec_u64_to_le_bytes(blob.len() as u64);
    assert(lenbytes.len() == 8);
    assert(b.subrange(i, i + 8) =~= lenbytes) by {
        assert forall|t: int| 0 <= t < 8 implies b.subrange(i, i + 8)[t] == lenbytes[t] by {
            assert(b.subrange(i, i + 8)[t] == b[i + t]);
            assert(whole[t] == b[i + t]);
            assert(whole[t] == (lenbytes + blob)[t]);
        }
    }
    lemma_parse_u64_at(b, i, blob.len() as u64);
    assert(b.subrange(i + 8, i + 8 + n) =~= blob) by {
        assert forall|t: int| 0 <= t < n implies b.subrange(i + 8, i + 8 + n)[t] == blob[t] by {
            assert(b.subrange(i + 8, i + 8 + n)[t] == b[i + 8 + t]);
            assert(whole[8 + t] == b[i + 8 + t]);
            assert(whole[8 + t] == (lenbytes + blob)[8 + t]);
        }
    }
}

/// A piece of framed text parses back to the text that was framed.
proof fn lemma_parse_text_at(b: Seq<u8>, i: int, s: Seq<char>)
    requires
        0 <= i,
        encode_utf8(s).len() <= u64::MAX,
        i + 8 + encode_utf8(s).len() <= b.len(),
        b.subrange(i, i + 8 + encode_utf8(s).len()) == spec_encode_text(s),
    ensures
        spec_parse_text(b, i) == Some((s, i + 8 + encode_utf8(s).len())),
{
    lemma_parse_blob_at(b, i, encode_utf8(s));
    encode_utf8_valid_utf8(s);
    encode_utf8_decode_utf8(s);
}

/// A framed run of byte strings parses back to the byte strings that were
/// framed, in their order.
proof fn lemma_parse_blobs_at(b: Seq<u8>, i: int, items: Seq<Seq<u8>>)
    requires
        0 <= i,
        forall|t: int| 0 <= t < items.len() ==> #[trigger] items[t].len() <= u64::MAX,
        i + spec_encode_blobs(items).len() <= b.len(),
        b.subrange(i, i + spec_encode_blobs(items).len()) == spec_encode_blobs(items),
    ensures
        spec_parse_blobs(b, i, items.len()) == Some((items, i + spec_encode_blobs(items).len())),
    decreases items.len(),
{
    lemma_auto_spec_u64_to_from_le_bytes();
    if items.len() == 0 {
        assert(items =~= Seq::<Seq<u8>>::empty());
    } else {
        let first = items.first();
        let rest = items.drop_first();
        let head = spec_encode_blob(first);
        let tail = spec_encode_blobs(rest);
        let flen = head.len();
        let tlen = tail.len();
        assert(spec_encode_blobs(items) == head + tail);
        let whole = b.subrange(i, i + flen + tlen);
        assert(b.subrange(i, i + flen) =~= head) by {
            assert forall|t: int| 0 <= t < flen implies b.subrange(i, i + flen)[t] == head[t] by {
                assert(b.subrange(i, i + flen)[t] == b[i + t]);
                assert(whole[t] == b[i + t]);
                assert(whole[t] == (head + tail)[t]);
            }
        }
        assert(flen == 8 + first.len());
        lemma_parse_blob_at(b, i, first);
        assert(b.subrange(i + flen, i + flen + tlen) =~= tail) by {
            assert forall|t: int| 0 <= t < tlen implies b.subrange(i + flen, i + flen + tlen)[t]
                == tail[t] by {
                assert(b.subrange(i + flen, i + flen + tlen)[t] == b[i + flen + t]);
                assert(whole[flen + t] == b[i + flen + t]);
                assert(whole[flen + t] == (head + tail)[flen + t]);
            }
        }
        assert(forall|t: int| 0 <= t < rest.len() ==> #[trigger] rest[t].len() <= u64::MAX) by {
            assert(forall|t: int| 0 <= t < rest.len() ==> rest[t] == items[t + 1]);
        }
        lemma_parse_blobs_at(b, i + flen, rest);
        assert(seq![first] + rest =~= items);
    }
}

/// Decoding undoes encoding: the byte image of any dump, read back, gives
/// the dump itself — the same label, save path, duplicate policy, and
/// record bytes.  The one premise, [`bounded`], holds of every dump a
/// program can build, since each framed length must fit in eight bytes.
pub proof fn lemma_dump_round_trip(v: DumpView)
    requires
        bounded(v),
    ensures
        spec_decode_dump(spec_encode_dump(v)) == Some(v),
{
    let b = spec_encode_dump(v);
    let lab = spec_encode_text(v.label);
    let sp = match v.save_path {
        None => seq![0u8],
        Some(p) => seq![1u8] + spec_encode_text(p),
    };
    let fl = seq![(if v.strict_dupes { 1u8 } else { 0u8 })];
    let cnt = spec_u64_to_le_bytes(v.items.len() as u64);
    let blobs = spec_encode_blobs(v.items);
    assert(b == lab + sp + fl + cnt + blobs);
    lemma_auto_spec_u64_to_from_le_bytes();
    let o1 = lab.len() as int;
    let o2 = o1 + sp.len() as int;
    let o3 = o2 + 1;
    let o4 = o3 + 8;
    assert(b.len() == o4 + blobs.len());
    assert(b.subrange(0, o1) =~= lab);
    lemma_parse_text_at(b, 0, v.label);
    assert(spec_parse_text(b, 0) == Some((v.label, o1)));
    match v.save_path {
        None => {
            assert(b[o1] == 0) by {
                assert(sp[0] == 0u8);
            }
            assert(spec_parse_opt_text(b, o1) == Some((None::<Seq<char>>, o1 + 1)));
        },
        Some(p) => {
            assert(b[o1] == 1) by {
                assert(sp[0] == 1u8);
            }
            assert(b.subrange(o1 + 1, o1 + 1 + 8 + encode_utf8(p).len()) =~= spec_encode_text(p));
            lemma_parse_text_at(b, o1 + 1, p);
            assert(spec_parse_opt_text(b, o1) == Some((Some(p), o2)));
        },
    }
    assert(b[o2] == fl[0]);
    assert(spec_parse_bool(b, o2) == Some((v.strict_dupes, o3)));
    assert(b.subrange(o3, o3 + 8) =~= cnt);
    lemma_parse_u64_at(b, o3, v.items.len() as u64);
    assert(b.subrange(o4, o4 + blobs.len()) =~= blobs);
    lemma_parse_blobs_at(b, o4, v.items);
    assert((v.items.len() as u64) as nat == v.items.len());
    assert(spec_parse_blobs(b, o4, v.items.len()) == Some((v.items, b.len() as int)));
    assert(spec_decode_dump(b) == Some(v)) by {
        assert(DumpView {
            label: v.label,
            save_path: v.save_path,
            strict_dupes: v.strict_dupes,
            items: v.items,
        } =~= v);
    }
}


/// Eight parsed bytes are the frame of the number they parse to.
proof fn lemma_parse_u64_sound(b: Seq<u8>, i: int, x: u64, j: int)
    requires
        spec_parse_u64(b, i) == Some((x, j)),
    ensures
        0 <= i,
        j == i + 8 <= b.len(),
        b.subrange(i, j) == spec_u64_to_le_bytes(x),
{
    lemma_auto_spec_u64_to_from_le_bytes();
    assert(spec_u64_to_le_bytes(spec_u64_from_le_bytes(b.subrange(i, i + 8))) == b.subrange(
        i,
        i + 8,
    ));
}

/// A parsed byte string occupies exactly its own frame.
proof fn lemma_parse_blob_sound(b: Seq<u8>, i: int, blob: Seq<u8>, j: int)
    requires
        spec_parse_blob(b, i) == Some((blob, j)),
    ensures
        0 <= i,
        i + 8 <= j <= b.len(),
        blob.len() == j - (i + 8) <= u64::MAX,
        b.subrange(i, j) == spec_encode_blob(blob),
{
    lemma_auto_spec_u64_to_from_le_bytes();
    let n = spec_u64_from_le_bytes(b.subrange(i, i + 8));
    lemma_parse_u64_sound(b, i, n, i + 8);
    assert(blob == b.subrange(i + 8, j));
    assert(b.subrange(i, j) =~= b.subrange(i, i + 8) + b.subrange(i + 8, j));
}

/// A parsed piece of text occupies exactly the frame of its UTF-8 bytes.
proof fn lemma_parse_text_sound(b: Seq<u8>, i: int, s: Seq<char>, j: int)
    requires
        spec_parse_text(b, i) == Some((s, j)),
    ensures
        0 <= i,
        i + 8 <= j <= b.len(),
        encode_utf8(s).len() == j - (i + 8) <= u64::MAX,
        b.subrange(i, j) == spec_encode_text(s),
{
    let blob = (spec_parse_blob(b, i)->0).0;
    lemma_parse_blob_sound(b, i, blob, j);
    decode_utf8_encode_utf8(blob);
    assert(encode_utf8(s) == blob);
}

/// A parsed run of byte strings occupies exactly its own framed run.
proof fn lemma_parse_blobs_sound(b: Seq<u8>, i: int, n: nat, items: Seq<Seq<u8>>, j: int)
    requires
        0 <= i <= b.len(),
        spec_parse_blobs(b, i, n) == Some((items, j)),
    ensures
        i <= j <= b.len(),
        items.len() == n,
        forall|t: int| 0 <= t < items.len() ==> #[trigger] items[t].len() <= u64::MAX,
        b.subrange(i, j) == spec_encode_blobs(items),
    decreases n,
{
    if n == 0 {
        assert(items =~= Seq::<Seq<u8>>::empty());
        assert(b.subrange(i, i) =~= Seq::<u8>::empty());
    } else {
        let (first, mid) = spec_parse_blob(b, i)->0;
        let rest = (spec_parse_blobs(b, mid, (n - 1) as nat)->0).0;
        lemma_parse_blob_sound(b, i, first, mid);
        lemma_parse_blobs_sound(b, mid, (n - 1) as nat, rest, j);
        assert(items == seq![first] + rest);
        assert(items.first() == first);
        assert(items.drop_first() =~= rest);
        assert(b.subrange(i, j) =~= b.subrange(i, mid) + b.subrange(mid, j));
        assert(forall|t: int|
            0 <= t < items.len() ==> #[trigger] items[t].len() <= u64::MAX) by {
            assert(forall|t: int| 1 <= t < items.len() ==> items[t] == rest[t - 1]);
        }
    }
}

/// Encoding undoes decoding: only genuine byte images decode, and each
/// decodes to the one dump whose image it is.  Together with
/// [`lemma_dump_round_trip`] this makes the codec a one-to-one
/// correspondence between dumps and well-formed images.
pub proof fn lemma_dump_image_exact(b: Seq<u8>, v: DumpView)
    requires
        spec_decode_dump(b) == Some(v),
    ensures
        bounded(v),
        spec_encode_dump(v) == b,
{
    let (label, i1) = spec_parse_text(b, 0)->0;
    let (save_path, i2) = spec_parse_opt_text(b, i1)->0;
    let (strict_dupes, i3) = spec_parse_bool(b, i2)->0;
    let (count, i4) = spec_parse_u64(b, i3)->0;
    let items = (spec_parse_blobs(b, i4, count as nat)->0).0;
    lemma_parse_text_sound(b, 0, label, i1);
    let sp_bytes = if save_path is Some {
        let p = save_path->0;
        lemma_parse_text_sound(b, i1 + 1, p, i2);
        assert(b.subrange(i1, i2) =~= seq![1u8] + b.subrange(i1 + 1, i2));
        seq![1u8] + spec_encode_text(p)
    } else {
        assert(i2 == i1 + 1 && b[i1] == 0);
        assert(b.subrange(i1, i2) =~= seq![0u8]);
        seq![0u8]
    };
    assert(b.subrange(i1, i2) == sp_bytes);
    assert(b.subrange(i2, i3) =~= seq![(if strict_dupes { 1u8 } else { 0u8 })]);
    lemma_parse_u64_sound(b, i3, count, i4);
    lemma_parse_blobs_sound(b, i4, count as nat, items, b.len() as int);
    assert(v.items.len() as u64 == count) by {
        assert(v.items.len() == count as nat);
    }
    assert(b =~= b.subrange(0, i1) + b.subrange(i1, i2) + b.subrange(i2, i3) + b.subrange(
        i3,
        i4,
    ) + b.subrange(i4, b.len() as int));
}

} // verus!
