//! The persisted form of a tree: one line per entry, holding its kind, its
//! object hash as sixteen hex digits, its mode and its name, in the order the
//! entries stand in the tree. Parsing is proved to read a serialized entry
//! list back exactly, which is what makes a tree's hash a function of its
//! entries and reloading a saved tree faithful.
use vstd::prelude::*;

use crate::ObjectError;
use crate::hashing::{all_hex, hex_of_u64, hex_to_int, is_hex_digit, hex16_to_u64, u64_to_hex,
    lemma_hex_of_u64_round_trip, lemma_hex_to_int_in_range, ObjectHash};
use crate::tree::{EntryKind, EntryModel, TreeEntry, wf_entry, wf_entries};

verus! {

/// Space: the field separator inside a line.
pub const SP: u8 = 0x20;

/// Newline: the entry terminator.
pub const NL: u8 = 0x0a;

/// The byte that marks an entry's kind.
pub open spec fn kind_byte(k: EntryKind) -> u8 {
    if k is Blob {
        0x62
    } else {
        0x74
    }
}

/// The serialized form of one entry: kind, hash, mode and name, separated by
/// spaces and closed by a newline. The name, which may itself hold spaces,
/// is the last field and runs to the end of the line.
pub open spec fn entry_line(e: EntryModel) -> Seq<u8> {
    seq![kind_byte(e.kind), SP] + hex_of_u64(e.hash) + seq![SP] + e.mode + seq![SP] + e.name
        + seq![NL]
}

/// The serialized form of an entry list: its entries' lines in order.
pub open spec fn encode_entries(es: Seq<EntryModel>) -> Seq<u8>
    decreases es.len(),
{
    if es.len() == 0 {
        Seq::empty()
    } else {
        entry_line(es[0]) + encode_entries(es.skip(1))
    }
}

/// The position of the first occurrence of `b` in `s`, if any.
pub open spec fn find_byte(s: Seq<u8>, b: u8) -> Option<int>
    decreases s.len(),
{
    if s.len() == 0 {
        None
    } else if s[0] == b {
        Some(0)
    } else {
        match find_byte(s.skip(1), b) {
            None => None,
            Some(i) => Some(i + 1),
        }
    }
}

proof fn lemma_find_byte_none(s: Seq<u8>, b: u8)
    requires
        forall|j: int| 0 <= j < s.len() ==> s[j] != b,
    ensures
        find_byte(s, b) is None,
    decreases s.len(),
{
    if s.len() > 0 {
        assert(forall|j: int| 0 <= j < s.skip(1).len() ==> s.skip(1)[j] == s[j + 1]);
        lemma_find_byte_none(s.skip(1), b);
    }
}

proof fn lemma_find_byte_at(s: Seq<u8>, b: u8, i: int)
    requires
        0 <= i < s.len(),
        s[i] == b,
        forall|j: int| 0 <= j < i ==> s[j] != b,
    ensures
        find_byte(s, b) == Some(i),
    decreases s.len(),
{
    if i == 0 {
    } else {
        assert(forall|j: int| 0 <= j < s.skip(1).len() ==> s.skip(1)[j] == s[j + 1]);
        lemma_find_byte_at(s.skip(1), b, i - 1);
    }
}

pub proof fn lemma_find_byte_props(s: Seq<u8>, b: u8)
    ensures
        match find_byte(s, b) {
            Some(i) => 0 <= i < s.len() && s[i] == b && forall|j: int| 0 <= j < i ==> s[j] != b,
            None => forall|j: int| 0 <= j < s.len() ==> s[j] != b,
        },
    decreases s.len(),
{
    if s.len() == 0 {
    } else if s[0] == b {
    } else {
        lemma_find_byte_props(s.skip(1), b);
        assert(forall|j: int| 1 <= j < s.len() ==> s[j] == #[trigger] s.skip(1)[j - 1]);
        match find_byte(s.skip(1), b) {
            None => {
                assert forall|j: int| 0 <= j < s.len() implies s[j] != b by {
                    if j >= 1 {
                        assert(s.skip(1)[j - 1] != b);
                    }
                }
            },
            Some(i) => {
                assert(s[i + 1] == s.skip(1)[i]);
                assert forall|j: int| 0 <= j < i + 1 implies s[j] != b by {
                    if j >= 1 {
                        assert(s.skip(1)[j - 1] != b);
                    }
                }
            },
        }
    }
}

/// The result of reading one line: the entry it denotes and the number of
/// bytes the line takes, terminator included.
pub open spec fn parse_line(s: Seq<u8>) -> Option<(EntryModel, int)> {
    match find_byte(s, NL) {
        None => None,
        Some(nl) => {
            if nl < 21 {
                None
            } else {
                let hx = s.subrange(2, 18);
                if (s[0] == 0x62 || s[0] == 0x74) && s[1] == SP && all_hex(hx) && s[18] == SP {
                    match find_byte(s.subrange(19, nl), SP) {
                        None => None,
                        Some(sp) => if sp >= 1 {
                            Some(
                                (
                                    EntryModel {
                                        kind: if s[0] == 0x62 {
                                            EntryKind::Blob
                                        } else {
                                            EntryKind::Tree
                                        },
                                        mode: s.subrange(19, 19 + sp),
                                        hash: hex_to_int(hx) as u64,
                                        name: s.subrange(19 + sp + 1, nl),
                                    },
                                    nl + 1,
                                ),
                            )
                        } else {
                            None
                        },
                    }
                } else {
                    None
                }
            }
        },
    }
}

/// The entry list a byte sequence denotes: one entry per line, every byte
/// accounted for; `None` when the content is not a valid entry list.
pub open spec fn parse_entries(s: Seq<u8>) -> Option<Seq<EntryModel>>
    decreases s.len(),
{
    if s.len() == 0 {
        Some(Seq::empty())
    } else {
        match parse_line(s) {
            None => None,
            Some((e, k)) => if 0 < k <= s.len() {
                match parse_entries(s.skip(k)) {
                    None => None,
                    Some(rest) => Some(seq![e] + rest),
                }
            } else {
                None
            },
        }
    }
}

/// The shape of a serialized line: where each field stands and that no byte
/// before the final newline is a newline.
proof fn lemma_entry_line_shape(e: EntryModel)
    requires
        wf_entry(e),
    ensures
        ({
            let line = entry_line(e);
            let m = e.mode.len() as int;
            let n = e.name.len() as int;
            &&& line.len() == 21 + m + n
            &&& line[0] == kind_byte(e.kind)
            &&& line[1] == SP
            &&& line.subrange(2, 18) == hex_of_u64(e.hash)
            &&& line[18] == SP
            &&& line.subrange(19, 19 + m) == e.mode
            &&& line[19 + m] == SP
            &&& line.subrange(20 + m, 20 + m + n) == e.name
            &&& line[20 + m + n] == NL
            &&& forall|j: int| 0 <= j < 20 + m + n ==> line[j] != NL
        }),
{
    let line = entry_line(e);
    let m = e.mode.len() as int;
    let n = e.name.len() as int;
    lemma_hex_of_u64_round_trip(e.hash);
    assert(line.len() == 21 + m + n);
    assert(line.subrange(2, 18) =~= hex_of_u64(e.hash));
    assert(line.subrange(19, 19 + m) =~= e.mode);
    assert(line.subrange(20 + m, 20 + m + n) =~= e.name);
    assert forall|j: int| 0 <= j < 20 + m + n implies line[j] != NL by {
        if j < 2 {
        } else if j < 18 {
            assert(line[j] == hex_of_u64(e.hash)[j - 2]);
            assert(is_hex_digit(hex_of_u64(e.hash)[j - 2]));
        } else if j < 19 {
        } else if j < 19 + m {
            assert(line[j] == e.mode[j - 19]);
        } else if j < 20 + m {
        } else {
            assert(line[j] == e.name[j - 20 - m]);
        }
    }
}

/// Reading one line out of a serialized entry followed by anything else
/// yields exactly that entry and consumes exactly its line.
proof fn lemma_parse_entry_line(e: EntryModel, rest: Seq<u8>)
    requires
        wf_entry(e),
    ensures
        parse_line(entry_line(e) + rest) == Some((e, entry_line(e).len() as int)),
{
    let line = entry_line(e);
    let s = line + rest;
    let m = e.mode.len() as int;
    let n = e.name.len() as int;
    lemma_entry_line_shape(e);
    let nl = 20 + m + n;
    assert(s[nl] == line[nl] && line[nl] == NL);
    assert(forall|j: int| 0 <= j < nl ==> s[j] == line[j]);
    lemma_find_byte_at(s, NL, nl);
    assert(nl >= 21);
    let hx = s.subrange(2, 18);
    assert(hx =~= line.subrange(2, 18));
    lemma_hex_of_u64_round_trip(e.hash);
    assert(all_hex(hx));
    assert(s[0] == kind_byte(e.kind));
    assert(s[0] == 0x62 || s[0] == 0x74);
    assert(s[1] == SP && s[18] == SP);
    let mid = s.subrange(19, nl);
    assert(mid.len() == m + 1 + n);
    assert(mid[m] == s[19 + m] && s[19 + m] == line[19 + m] && line[19 + m] == SP);
    assert(forall|j: int| 0 <= j < m ==> mid[j] == line[19 + j] && line[19 + j]
        == e.mode[j]);
    assert(forall|j: int| 0 <= j < m ==> mid[j] != SP);
    lemma_find_byte_at(mid, SP, m);
    assert(m >= 1);
    let parsed = parse_line(s).unwrap().0;
    assert(parsed.kind == e.kind) by {
        if e.kind is Blob {
        } else {
            assert(kind_byte(e.kind) == 0x74);
        }
    }
    assert(parsed.mode =~= e.mode) by {
        assert(s.subrange(19, 19 + m) =~= line.subrange(19, 19 + m));
    }
    assert(parsed.name =~= e.name) by {
        assert(s.subrange(19 + m + 1, nl) =~= line.subrange(20 + m, 20 + m + n));
    }
    assert(parsed.hash == e.hash) by {
        assert(hex_to_int(hex_of_u64(e.hash)) == e.hash);
    }
    assert(parse_line(s).unwrap().1 == nl + 1 && nl + 1 == line.len());
}

/// Round trip: a serialized well-formed entry list parses back to exactly
/// that list.
pub proof fn lemma_codec_round_trip(es: Seq<EntryModel>)
    requires
        wf_entries(es),
    ensures
        parse_entries(encode_entries(es)) == Some(es),
    decreases es.len(),
{
    if es.len() == 0 {
        assert(encode_entries(es).len() == 0);
        assert(Some(Seq::<EntryModel>::empty()) == Some(es)) by {
            assert(es =~= Seq::<EntryModel>::empty());
        }
    } else {
        let line = entry_line(es[0]);
        let tail = encode_entries(es.skip(1));
        let s = line + tail;
        assert(wf_entry(es[0]));
        lemma_entry_line_shape(es[0]);
        lemma_parse_entry_line(es[0], tail);
        assert(s.len() >= line.len());
        assert(wf_entries(es.skip(1))) by {
            assert(forall|i: int| 0 <= i < es.skip(1).len() ==> es.skip(1)[i] == es[i + 1]);
        }
        lemma_codec_round_trip(es.skip(1));
        assert(s.skip(line.len() as int) =~= tail);
        assert(seq![es[0]] + es.skip(1) =~= es);
    }
}

/// Serializing one more entry appends exactly its line.
proof fn lemma_encode_snoc(es: Seq<EntryModel>, e: EntryModel)
    ensures
        encode_entries(es.push(e)) == encode_entries(es) + entry_line(e),
    decreases es.len(),
{
    if es.len() == 0 {
        assert(es.push(e)[0] == e);
        assert(es.push(e).skip(1) =~= Seq::<EntryModel>::empty());
        assert(encode_entries(Seq::<EntryModel>::empty()) == Seq::<u8>::empty());
        assert(encode_entries(es.push(e)) == entry_line(e) + Seq::<u8>::empty());
        assert(entry_line(e) + Seq::<u8>::empty() =~= entry_line(e));
        assert(encode_entries(es) + entry_line(e) =~= entry_line(e));
    } else {
        assert(es.push(e)[0] == es[0]);
        assert(es.push(e).skip(1) =~= es.skip(1).push(e));
        lemma_encode_snoc(es.skip(1), e);
        assert((entry_line(es[0]) + encode_entries(es.skip(1))) + entry_line(e) =~= entry_line(
            es[0],
        ) + (encode_entries(es.skip(1)) + entry_line(e)));
    }
}

/// Appends all of `v` to `out`.
pub fn append_bytes(out: &mut Vec<u8>, v: &Vec<u8>)
    ensures
        final(out)@ == old(out)@ + v@,
{
    let mut i: usize = 0;
    while i < v.len()
        invariant
            0 <= i <= v@.len(),
            out@ =~= old(out)@ + v@.take(i as int),
        decreases v@.len() - i,
    {
        out.push(v[i]);
        proof {
            assert(old(out)@ + v@.take(i as int) + seq![v@[i as int]] =~= old(out)@ + v@.take(
                i + 1,
            ));
        }
        i = i + 1;
    }
    proof {
        assert(old(out)@ + v@.take(v@.len() as int) =~= old(out)@ + v@);
    }
}

/// A fresh copy of the bytes of `v` between `a` and `b`.
pub fn subvec(v: &Vec<u8>, a: usize, b: usize) -> (r: Vec<u8>)
    requires
        a <= b <= v@.len(),
    ensures
        r@ == v@.subrange(a as int, b as int),
{
    let mut out: Vec<u8> = Vec::new();
    let mut i: usize = a;
    while i < b
        invariant
            a <= i <= b <= v@.len(),
            out@ =~= v@.subrange(a as int, i as int),
        decreases b - i,
    {
        out.push(v[i]);
        proof {
            assert(v@.subrange(a as int, i as int) + seq![v@[i as int]] =~= v@.subrange(
                a as int,
                i + 1,
            ));
        }
        i = i + 1;
    }
    out
}

/// Serializes an entry list.
pub fn encode_tree_entries(entries: &Vec<TreeEntry>) -> (r: Vec<u8>)
    requires
        wf_entries(entries@.map_values(|e: TreeEntry| e@)),
    ensures
        r@ == encode_entries(entries@.map_values(|e: TreeEntry| e@)),
{
    let ghost ms = entries@.map_values(|e: TreeEntry| e@);
    let mut out: Vec<u8> = Vec::new();
    let mut i: usize = 0;
    while i < entries.len()
        invariant
            0 <= i <= entries@.len(),
            ms == entries@.map_values(|e: TreeEntry| e@),
            wf_entries(ms),
            out@ == encode_entries(ms.take(i as int)),
        decreases entries@.len() - i,
    {
        let ghost out0 = out@;
        let e = &entries[i];
        let kb: u8 = match e.kind {
            EntryKind::Blob => 0x62,
            EntryKind::Tree => 0x74,
        };
        out.push(kb);
        out.push(SP);
        let hx = u64_to_hex(e.object_hash.value);
        append_bytes(&mut out, &hx);
        out.push(SP);
        append_bytes(&mut out, &e.mode);
        out.push(SP);
        append_bytes(&mut out, &e.name);
        out.push(NL);
        proof {
            assert(ms[i as int] == e@);
            assert(kb == kind_byte(ms[i as int].kind));
            assert(out@ =~= out0 + entry_line(ms[i as int]));
            lemma_encode_snoc(ms.take(i as int), ms[i as int]);
            assert(ms.take(i + 1) =~= ms.take(i as int).push(ms[i as int]));
        }
        i = i + 1;
    }
    proof {
        assert(ms.take(ms.len() as int) =~= ms);
    }
    out
}

/// The position of the first `b` in `data` between `start` and `end`, if any.
pub(crate) fn find_range(data: &Vec<u8>, start: usize, end: usize, b: u8) -> (r: Option<usize>)
    requires
        start <= end <= data@.len(),
    ensures
        match find_byte(data@.subrange(start as int, end as int), b) {
            Some(i) => r == Some((start + i) as usize),
            None => r is None,
        },
{
    let ghost t = data@.subrange(start as int, end as int);
    let mut i: usize = start;
    while i < end
        invariant
            start <= i <= end <= data@.len(),
            t == data@.subrange(start as int, end as int),
            forall|j: int| start <= j < i ==> data@[j] != b,
        decreases end - i,
    {
        if data[i] == b {
            proof {
                assert(t[i - start] == b);
                assert(forall|j: int| 0 <= j < i - start ==> #[trigger] t[j] == data@[j + start]);
                lemma_find_byte_at(t, b, i - start);
            }
            return Some(i);
        }
        i = i + 1;
    }
    proof {
        assert(forall|j: int| 0 <= j < t.len() ==> #[trigger] t[j] == data@[j + start]);
        lemma_find_byte_none(t, b);
    }
    None
}

/// Whether the sixteen bytes of `data` from `at` on are all hex digits.
fn check_hex16(data: &Vec<u8>, at: usize) -> (r: bool)
    requires
        at + 16 <= data@.len(),
    ensures
        r == all_hex(data@.subrange(at as int, at + 16)),
{
    let ghost hx = data@.subrange(at as int, at + 16);
    let dlen: usize = data.len();
    let mut j: usize = 0;
    let mut ok = true;
    while j < 16
        invariant
            0 <= j <= 16,
            dlen == data@.len(),
            at + 16 <= data@.len(),
            hx == data@.subrange(at as int, at + 16),
            ok <==> (forall|q: int| 0 <= q < j ==> is_hex_digit(#[trigger] hx[q])),
        decreases 16 - j,
    {
        let b = data[at + j];
        proof {
            assert(hx[j as int] == b);
        }
        if !((0x30 <= b && b <= 0x39) || (0x61 <= b && b <= 0x66)) {
            ok = false;
        }
        j = j + 1;
    }
    ok
}

/// Reads an entry list out of `data` from `pos` on, one line at a time.
fn decode_from(data: &Vec<u8>, pos: usize) -> (r: Result<Vec<TreeEntry>, ObjectError>)
    requires
        pos <= data@.len(),
    ensures
        match parse_entries(data@.skip(pos as int)) {
            Some(ms) => r matches Ok(v) && v@.map_values(|e: TreeEntry| e@) == ms,
            None => r == Err::<Vec<TreeEntry>, ObjectError>(ObjectError::FormatError),
        },
    decreases data@.len() - pos,
{
    let ghost t = data@.skip(pos as int);
    let len = data.len();
    if pos == len {
        proof {
            assert(t.len() == 0);
            assert(Seq::<TreeEntry>::empty().map_values(|e: TreeEntry| e@) =~= Seq::<
                EntryModel,
            >::empty());
        }
        return Ok(Vec::new());
    }
    proof {
        assert(data@.subrange(pos as int, len as int) =~= t);
    }
    let nl_abs = match find_range(data, pos, len, NL) {
        None => {
            return Err(ObjectError::FormatError);
        },
        Some(x) => x,
    };
    let ghost nl = nl_abs - pos;
    proof {
        lemma_find_byte_props(t, NL);
    }
    if nl_abs - pos < 21 {
        return Err(ObjectError::FormatError);
    }
    let k0 = data[pos];
    if !(k0 == 0x62 || k0 == 0x74) {
        return Err(ObjectError::FormatError);
    }
    if data[pos + 1] != SP || data[pos + 18] != SP {
        proof {
            assert(t[1] == data@[pos + 1] && t[18] == data@[pos + 18]);
        }
        return Err(ObjectError::FormatError);
    }
    let ghost hx = t.subrange(2, 18);
    proof {
        assert(hx =~= data@.subrange(pos + 2, pos + 18));
    }
    if !check_hex16(data, pos + 2) {
        return Err(ObjectError::FormatError);
    }
    proof {
        assert(all_hex(hx));
        lemma_hex_to_int_in_range(hx);
    }
    let hash_val = hex16_to_u64(data, pos + 2);
    let sp_abs = match find_range(data, pos + 19, nl_abs, SP) {
        None => {
            proof {
                assert(t.subrange(19, nl) =~= data@.subrange(pos + 19, nl_abs as int));
            }
            return Err(ObjectError::FormatError);
        },
        Some(x) => x,
    };
    let ghost sp = sp_abs - (pos + 19);
    proof {
        assert(t.subrange(19, nl) =~= data@.subrange(pos + 19, nl_abs as int));
        lemma_find_byte_props(t.subrange(19, nl), SP);
    }
    if sp_abs == pos + 19 {
        return Err(ObjectError::FormatError);
    }
    let mode = subvec(data, pos + 19, sp_abs);
    let name = subvec(data, sp_abs + 1, nl_abs);
    let entry = TreeEntry {
        kind: if k0 == 0x62 {
            EntryKind::Blob
        } else {
            EntryKind::Tree
        },
        mode,
        object_hash: ObjectHash { value: hash_val },
        name,
    };
    proof {
        let (pe, k) = parse_line(t).unwrap();
        assert(pe.mode =~= entry.mode@) by {
            assert(t.subrange(19, 19 + sp) =~= data@.subrange(pos + 19, sp_abs as int));
        }
        assert(pe.name =~= entry.name@) by {
            assert(t.subrange(19 + sp + 1, nl) =~= data@.subrange(sp_abs + 1, nl_abs as int));
        }
        assert(pe.hash == entry.object_hash@);
        assert(pe.kind == entry.kind) by {
            assert(t[0] == data@[pos as int]);
        }
        assert(pe == entry@);
        assert(k == nl + 1);
        assert(0 < k <= t.len());
    }
    let rest = decode_from(data, nl_abs + 1);
    proof {
        assert(t.skip(nl + 1) =~= data@.skip(nl_abs + 1));
    }
    match rest {
        Err(_) => Err(ObjectError::FormatError),
        Ok(mut v) => {
            let ghost rest_ms = v@.map_values(|e: TreeEntry| e@);
            v.insert(0, entry);
            proof {
                assert(v@.map_values(|e: TreeEntry| e@) =~= seq![entry@] + rest_ms);
            }
            Ok(v)
        },
    }
}

/// Reads an entry list back from its serialized form; a format error when
/// the content is not a valid entry list.
pub fn decode_tree_entries(data: &Vec<u8>) -> (r: Result<Vec<TreeEntry>, ObjectError>)
    ensures
        match parse_entries(data@) {
            Some(ms) => r matches Ok(v) && v@.map_values(|e: TreeEntry| e@) == ms,
            None => r == Err::<Vec<TreeEntry>, ObjectError>(ObjectError::FormatError),
        },
{
    proof {
        assert(data@.skip(0) =~= data@);
    }
    decode_from(data, 0)
}

/// Whatever parses is well formed: the mode stops at the first space and the
/// line stops at the first newline, so no parsed field can hold the byte that
/// would end it early.
pub proof fn lemma_parse_entries_wf(s: Seq<u8>)
    ensures
        parse_entries(s) matches Some(ms) ==> wf_entries(ms),
    decreases s.len(),
{
    if s.len() > 0 && parse_entries(s) is Some {
        let (e, k) = parse_line(s).unwrap();
        lemma_find_byte_props(s, NL);
        let nl = find_byte(s, NL).unwrap();
        lemma_find_byte_props(s.subrange(19, nl), SP);
        let sp = find_byte(s.subrange(19, nl), SP).unwrap();
        assert(wf_entry(e)) by {
            let mid = s.subrange(19, nl);
            assert(forall|i: int| 0 <= i < e.mode.len() ==> e.mode[i] == mid[i]);
            assert(forall|i: int| 0 <= i < e.mode.len() ==> e.mode[i] != SP);
            assert(forall|i: int| 0 <= i < e.mode.len() ==> #[trigger] e.mode[i] != NL) by {
                assert(forall|i: int| 0 <= i < e.mode.len() ==> e.mode[i] == s[19 + i]);
            }
            assert(forall|i: int| 0 <= i < e.name.len() ==> #[trigger] e.name[i] != NL) by {
                assert(forall|i: int| 0 <= i < e.name.len() ==> e.name[i] == s[19 + sp + 1 + i]);
            }
        }
        lemma_parse_entries_wf(s.skip(k));
        let rest = parse_entries(s.skip(k)).unwrap();
        let ms = parse_entries(s).unwrap();
        assert(ms == seq![e] + rest);
        assert(forall|i: int| 0 <= i < ms.len() ==> wf_entry(#[trigger] ms[i])) by {
            assert(ms[0] == e);
            assert(forall|i: int| 1 <= i < ms.len() ==> ms[i] == rest[i - 1]);
        }
    }
}

} // verus!
