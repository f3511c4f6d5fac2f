//! The codec for the four backing documents. Each document is a
//! length-prefixed byte form of the logical structure: integers as eight
//! little-endian bytes, strings as a byte count followed by their UTF-8
//! bytes, lists as an entry count followed by the entries, sums as one tag
//! byte. Decoding an encoded document yields an equal structure; anything
//! that is not the encoding of a document may be rejected.
use crate::bank::Bank;
use crate::last::Last;
use crate::task::{Metadata, Task, TaskType, TaskV};
use crate::undobank::{
    lemma_undo_items_view, undo_items_view, BankName, UndoBank, UndoItem, UndoItemV,
};
use vstd::bytes::*;
use vstd::prelude::*;
use vstd::string::*;
use vstd::utf8::*;

verus! {

/// A machine integer as eight little-endian bytes.
pub open spec fn enc_u64(x: u64) -> Seq<u8> {
    spec_u64_to_le_bytes(x)
}

/// A signed stamp, carried on the two's-complement image of the value.
pub open spec fn enc_i64(x: i64) -> Seq<u8> {
    enc_u64(x as u64)
}

/// A string: its UTF-8 byte count, then the bytes themselves.
pub open spec fn enc_str(s: Seq<char>) -> Seq<u8> {
    enc_u64(encode_utf8(s).len() as u64) + encode_utf8(s)
}

/// An optional string: a presence byte, then the string when present.
pub open spec fn enc_opt_str(o: Option<Seq<char>>) -> Seq<u8> {
    match o {
        None => seq![0u8],
        Some(s) => seq![1u8] + enc_str(s),
    }
}

/// An optional stamp: a presence byte, then the stamp when present.
pub open spec fn enc_opt_i64(o: Option<i64>) -> Seq<u8> {
    match o {
        None => seq![0u8],
        Some(x) => seq![1u8] + enc_i64(x),
    }
}

/// The record flavour as one tag byte.
pub open spec fn enc_kind(k: TaskType) -> Seq<u8> {
    match k {
        TaskType::Todo => seq![84u8],
        TaskType::Deadline => seq![68u8],
    }
}

/// A bank name as one tag byte.
pub open spec fn enc_bank_name(b: BankName) -> Seq<u8> {
    match b {
        BankName::Active => seq![97u8],
        BankName::Closed => seq![99u8],
    }
}

/// A list of strings, one after the other.
pub open spec fn enc_str_seq(ss: Seq<Seq<char>>) -> Seq<u8>
    decreases ss.len(),
{
    if ss.len() == 0 {
        Seq::empty()
    } else {
        enc_str(ss[0]) + enc_str_seq(ss.drop_first())
    }
}

/// One record: flavour, id, name, description, priority, the three stamps,
/// then the tag count and the tags.
pub open spec fn enc_task(t: TaskV) -> Seq<u8> {
    enc_kind(t.kind) + enc_str(t.metadata.id) + enc_str(t.metadata.name) + enc_opt_str(
        t.metadata.description,
    ) + enc_u64(t.metadata.priority as u64) + enc_i64(t.metadata.created) + enc_i64(
        t.metadata.last_completed,
    ) + enc_opt_i64(t.metadata.closed_at) + enc_u64(t.tags.len() as u64) + enc_str_seq(t.tags)
}

/// A list of records, one after the other.
pub open spec fn enc_task_seq(s: Seq<TaskV>) -> Seq<u8>
    decreases s.len(),
{
    if s.len() == 0 {
        Seq::empty()
    } else {
        enc_task(s[0]) + enc_task_seq(s.drop_first())
    }
}

/// A bank document: its tag byte, the record count, the records.
pub open spec fn enc_bank(s: Seq<TaskV>) -> Seq<u8> {
    seq![66u8] + enc_u64(s.len() as u64) + enc_task_seq(s)
}

/// One undo entry: a tag byte and the entry's parts; a sequence carries its
/// entry count and then the entries.
pub open spec fn enc_undo_item(it: UndoItemV) -> Seq<u8>
    decreases it, 1int,
{
    match it {
        UndoItemV::Move { task, from, to } => seq![77u8] + enc_task(task) + enc_bank_name(from)
            + enc_bank_name(to),
        UndoItemV::Change { from, to, in_bank } => seq![67u8] + enc_task(from) + enc_task(to)
            + enc_bank_name(in_bank),
        UndoItemV::Add { new_task } => seq![65u8] + enc_task(new_task),
        UndoItemV::Sequence(items) => seq![83u8] + enc_u64(items.len() as u64)
            + enc_undo_item_seq(items),
    }
}

/// A list of undo entries, one after the other.
pub open spec fn enc_undo_item_seq(s: Seq<UndoItemV>) -> Seq<u8>
    decreases s, 0int,
{
    if s.len() == 0 {
        Seq::empty()
    } else {
        enc_undo_item(s[0]) + enc_undo_item_seq(s.drop_first())
    }
}

/// An undo-log document: its tag byte, the entry count, the entries.
pub open spec fn enc_undo_log(s: Seq<UndoItemV>) -> Seq<u8> {
    seq![85u8] + enc_u64(s.len() as u64) + enc_undo_item_seq(s)
}

/// A last-pointer document: its tag byte and the optional id.
pub open spec fn enc_last(o: Option<Seq<char>>) -> Seq<u8> {
    seq![76u8] + enc_opt_str(o)
}

/// Encoding a list extended at the end appends the entry's encoding.
pub proof fn lemma_enc_str_seq_push(ss: Seq<Seq<char>>, x: Seq<char>)
    ensures
        enc_str_seq(ss.push(x)) == enc_str_seq(ss) + enc_str(x),
    decreases ss.len(),
{
    reveal_with_fuel(enc_str_seq, 3);
    if ss.len() == 0 {
        assert(ss.push(x)[0] == x);
        assert(ss.push(x).drop_first() =~= Seq::<Seq<char>>::empty());
        assert(enc_str_seq(ss.push(x)) =~= enc_str_seq(ss) + enc_str(x));
    } else {
        assert(ss.push(x)[0] == ss[0]);
        assert(ss.push(x).drop_first() =~= ss.drop_first().push(x));
        lemma_enc_str_seq_push(ss.drop_first(), x);
        assert(enc_str(ss[0]) + (enc_str_seq(ss.drop_first()) + enc_str(x)) =~= (enc_str(ss[0])
            + enc_str_seq(ss.drop_first())) + enc_str(x));
    }
}

/// Encoding a list extended at the end appends the record's encoding.
pub proof fn lemma_enc_task_seq_push(s: Seq<TaskV>, x: TaskV)
    ensures
        enc_task_seq(s.push(x)) == enc_task_seq(s) + enc_task(x),
    decreases s.len(),
{
    reveal_with_fuel(enc_task_seq, 3);
    if s.len() == 0 {
        assert(s.push(x)[0] == x);
        assert(s.push(x).drop_first() =~= Seq::<TaskV>::empty());
        assert(enc_task_seq(s.push(x)) =~= enc_task_seq(s) + enc_task(x));
    } else {
        assert(s.push(x)[0] == s[0]);
        assert(s.push(x).drop_first() =~= s.drop_first().push(x));
        lemma_enc_task_seq_push(s.drop_first(), x);
        assert(enc_task(s[0]) + (enc_task_seq(s.drop_first()) + enc_task(x)) =~= (enc_task(s[0])
            + enc_task_seq(s.drop_first())) + enc_task(x));
    }
}

/// Encoding a list extended at the end appends the entry's encoding.
pub proof fn lemma_enc_undo_item_seq_push(s: Seq<UndoItemV>, x: UndoItemV)
    ensures
        enc_undo_item_seq(s.push(x)) == enc_undo_item_seq(s) + enc_undo_item(x),
    decreases s.len(),
{
    reveal_with_fuel(enc_undo_item_seq, 3);
    if s.len() == 0 {
        assert(s.push(x)[0] == x);
        assert(s.push(x).drop_first() =~= Seq::<UndoItemV>::empty());
        assert(enc_undo_item_seq(s.push(x)) =~= enc_undo_item_seq(s) + enc_undo_item(x));
    } else {
        assert(s.push(x)[0] == s[0]);
        assert(s.push(x).drop_first() =~= s.drop_first().push(x));
        lemma_enc_undo_item_seq_push(s.drop_first(), x);
        assert(enc_undo_item(s[0]) + (enc_undo_item_seq(s.drop_first()) + enc_undo_item(x)) =~= (
        enc_undo_item(s[0]) + enc_undo_item_seq(s.drop_first())) + enc_undo_item(x));
    }
}

/// Append a machine integer.
fn put_u64(out: &mut Vec<u8>, x: u64)
    ensures
        final(out)@ == old(out)@ + enc_u64(x),
{
    let bytes = u64_to_le_bytes(x);
    out.extend_from_slice(bytes.as_slice());
}

/// Append a signed stamp.
fn put_i64(out: &mut Vec<u8>, x: i64)
    ensures
        final(out)@ == old(out)@ + enc_i64(x),
{
    put_u64(out, x as u64);
}

/// Append a string.
fn put_str(out: &mut Vec<u8>, s: &str)
    ensures
        final(out)@ == old(out)@ + enc_str(s@),
{
    let bytes = s.as_bytes();
    put_u64(out, bytes.len() as u64);
    out.extend_from_slice(bytes);
    proof {
        assert(final(out)@ =~= old(out)@ + enc_str(s@));
    }
}

/// Append one record.
#[verifier::rlimit(100)]
#[verifier::spinoff_prover]
fn put_task(out: &mut Vec<u8>, t: &Task)
    ensures
        final(out)@ == old(out)@ + enc_task(t@),
{
    match t.task {
        TaskType::Todo => out.push(84u8),
        TaskType::Deadline => out.push(68u8),
    }
    put_str(out, t.metadata.id.as_str());
    put_str(out, t.metadata.name.as_str());
    match &t.metadata.description {
        None => out.push(0u8),
        Some(d) => {
            out.push(1u8);
            put_str(out, d.as_str());
        },
    }
    put_u64(out, t.metadata.priority as u64);
    put_i64(out, t.metadata.created);
    put_i64(out, t.metadata.last_completed);
    match t.metadata.closed_at {
        None => out.push(0u8),
        Some(x) => {
            out.push(1u8);
            put_i64(out, x);
        },
    }
    put_u64(out, t.tags.len() as u64);
    let ghost mid = out@;
    let mut i: usize = 0;
    while i < t.tags.len()
        invariant
            i <= t.tags.len(),
            out@ == mid + enc_str_seq(t@.tags.subrange(0, i as int)),
        decreases t.tags.len() - i,
    {
        let ghost prefix = t@.tags.subrange(0, i as int);
        proof {
            assert(t@.tags.subrange(0, i + 1) =~= prefix.push(t@.tags[i as int]));
            lemma_enc_str_seq_push(prefix, t@.tags[i as int]);
        }
        put_str(out, t.tags[i].as_str());
        proof {
            assert((mid + enc_str_seq(prefix)) + enc_str(t@.tags[i as int]) =~= mid + (
            enc_str_seq(prefix) + enc_str(t@.tags[i as int])));
        }
        i += 1;
    }
    proof {
        assert(t@.tags.subrange(0, t.tags.len() as int) =~= t@.tags);
        assert(final(out)@ =~= old(out)@ + enc_task(t@));
    }
}

/// Encode a bank document.
pub fn encode_bank(bank: &Bank) -> (r: Vec<u8>)
    ensures
        r@ == enc_bank(bank@),
{
    let mut out: Vec<u8> = Vec::new();
    out.push(66u8);
    put_u64(&mut out, bank.tasks.len() as u64);
    let ghost mid = out@;
    let mut i: usize = 0;
    while i < bank.tasks.len()
        invariant
            i <= bank.tasks.len(),
            out@ == mid + enc_task_seq(bank@.subrange(0, i as int)),
        decreases bank.tasks.len() - i,
    {
        let ghost prefix = bank@.subrange(0, i as int);
        proof {
            assert(bank@.subrange(0, i + 1) =~= prefix.push(bank@[i as int]));
            lemma_enc_task_seq_push(prefix, bank@[i as int]);
        }
        put_task(&mut out, &bank.tasks[i]);
        proof {
            assert((mid + enc_task_seq(prefix)) + enc_task(bank@[i as int]) =~= mid + (
            enc_task_seq(prefix) + enc_task(bank@[i as int])));
        }
        i += 1;
    }
    proof {
        assert(bank@.subrange(0, bank.tasks.len() as int) =~= bank@);
        assert(out@ =~= enc_bank(bank@));
    }
    out
}

/// Append one undo entry.
fn put_undo_item(out: &mut Vec<u8>, it: &UndoItem)
    ensures
        final(out)@ == old(out)@ + enc_undo_item(it@),
    decreases *it,
{
    match it {
        UndoItem::Move { task, from, to } => {
            out.push(77u8);
            put_task(out, task);
            put_bank_name(out, *from);
            put_bank_name(out, *to);
            proof {
                assert(final(out)@ =~= old(out)@ + enc_undo_item(it@));
            }
        },
        UndoItem::Change { from, to, in_bank } => {
            out.push(67u8);
            put_task(out, from);
            put_task(out, to);
            put_bank_name(out, *in_bank);
            proof {
                assert(final(out)@ =~= old(out)@ + enc_undo_item(it@));
            }
        },
        UndoItem::Add { new_task } => {
            out.push(65u8);
            put_task(out, new_task);
            proof {
                assert(final(out)@ =~= old(out)@ + enc_undo_item(it@));
            }
        },
        UndoItem::Sequence(items) => {
            out.push(83u8);
            put_u64(out, items.len() as u64);
            let ghost ivs = undo_items_view(items@);
            proof {
                lemma_undo_items_view(items@);
            }
            let ghost mid = out@;
            let mut i: usize = 0;
            while i < items.len()
                invariant
                    i <= items.len(),
                    out@ == mid + enc_undo_item_seq(ivs.subrange(0, i as int)),
                decreases items.len() - i,
            {
                let ghost prefix = ivs.subrange(0, i as int);
                proof {
                    assert(ivs.subrange(0, i + 1) =~= prefix.push(ivs[i as int]));
                    lemma_enc_undo_item_seq_push(prefix, ivs[i as int]);
                    assert(decreases_to!(*it => *items));
                    assert(decreases_to!(*items => items@));
                    assert(decreases_to!(items@ => items@[i as int]));
                }
                put_undo_item(out, &items[i]);
                proof {
                    assert((mid + enc_undo_item_seq(prefix)) + enc_undo_item(ivs[i as int]) =~= mid
                        + (enc_undo_item_seq(prefix) + enc_undo_item(ivs[i as int])));
                }
                i += 1;
            }
            proof {
                assert(ivs.subrange(0, items.len() as int) =~= ivs);
                assert(final(out)@ =~= old(out)@ + enc_undo_item(it@));
            }
        },
    }
}

/// Append a bank name.
fn put_bank_name(out: &mut Vec<u8>, b: BankName)
    ensures
        final(out)@ == old(out)@ + enc_bank_name(b),
{
    match b {
        BankName::Active => out.push(97u8),
        BankName::Closed => out.push(99u8),
    }
}

/// Encode an undo-log document.
pub fn encode_undo_log(log: &UndoBank) -> (r: Vec<u8>)
    ensures
        r@ == enc_undo_log(log@),
{
    let mut out: Vec<u8> = Vec::new();
    out.push(85u8);
    put_u64(&mut out, log.undoitems.len() as u64);
    let ghost mid = out@;
    let mut i: usize = 0;
    while i < log.undoitems.len()
        invariant
            i <= log.undoitems.len(),
            out@ == mid + enc_undo_item_seq(log@.subrange(0, i as int)),
        decreases log.undoitems.len() - i,
    {
        let ghost prefix = log@.subrange(0, i as int);
        proof {
            assert(log@.subrange(0, i + 1) =~= prefix.push(log@[i as int]));
            lemma_enc_undo_item_seq_push(prefix, log@[i as int]);
        }
        put_undo_item(&mut out, &log.undoitems[i]);
        proof {
            assert((mid + enc_undo_item_seq(prefix)) + enc_undo_item(log@[i as int]) =~= mid + (
            enc_undo_item_seq(prefix) + enc_undo_item(log@[i as int])));
        }
        i += 1;
    }
    proof {
        assert(log@.subrange(0, log.undoitems.len() as int) =~= log@);
        assert(out@ =~= enc_undo_log(log@));
    }
    out
}

/// Relies on String::from_utf8: it accepts exactly the valid UTF-8 byte
/// sequences, and returns the string whose UTF-8 encoding is the input,
/// that is, the decoding of the bytes.
#[verifier::external_body]
pub(crate) fn string_from_utf8(v: Vec<u8>) -> (r: Option<String>)
    ensures
        r is Some <==> valid_utf8(v@),
        r is Some ==> r->0@ == decode_utf8(v@),
{
    match String::from_utf8(v) {
        Ok(s) => Some(s),
        Err(_) => None,
    }
}

/// A string list never encodes shorter than its entry count.
pub proof fn lemma_enc_str_seq_len(ss: Seq<Seq<char>>)
    ensures
        enc_str_seq(ss).len() >= ss.len(),
    decreases ss.len(),
{
    if ss.len() > 0 {
        lemma_enc_str_seq_len(ss.drop_first());
        vstd::bytes::lemma_auto_spec_u64_to_from_le_bytes();
    }
}

/// A record list never encodes shorter than its record count.
pub proof fn lemma_enc_task_seq_len(s: Seq<TaskV>)
    ensures
        enc_task_seq(s).len() >= s.len(),
    decreases s.len(),
{
    if s.len() > 0 {
        lemma_enc_task_seq_len(s.drop_first());
    }
}

/// An undo-entry list never encodes shorter than its entry count.
pub proof fn lemma_enc_undo_item_seq_len(s: Seq<UndoItemV>)
    ensures
        enc_undo_item_seq(s).len() >= s.len(),
    decreases s.len(),
{
    if s.len() > 0 {
        lemma_enc_undo_item_seq_len(s.drop_first());
        assert(enc_undo_item(s[0]).len() >= 1) by {
            match s[0] {
                UndoItemV::Move { .. } => {},
                UndoItemV::Change { .. } => {},
                UndoItemV::Add { .. } => {},
                UndoItemV::Sequence(_) => {},
            }
        }
    }
}

/// Read one byte.
fn read_byte(buf: &Vec<u8>, pos: usize) -> (r: Option<(u8, usize)>)
    requires
        pos <= buf@.len(),
    ensures
        pos < buf@.len() ==> r is Some && (r->0).0 == buf@[pos as int] && (r->0).1 == pos + 1,
        pos == buf@.len() ==> r is None,
{
    if pos < buf.len() {
        Some((buf[pos], pos + 1))
    } else {
        None
    }
}

/// Read a machine integer: eight little-endian bytes.
fn read_u64(buf: &Vec<u8>, pos: usize) -> (r: Option<(u64, usize)>)
    requires
        pos <= buf@.len(),
    ensures
        r is Some ==> (r->0).1 == pos + 8 && pos + 8 <= buf@.len(),
        forall|x: u64, rest: Seq<u8>|
            buf@.skip(pos as int) == enc_u64(x) + rest ==> r is Some && (r->0).0 == x,
{
    proof {
        lemma_auto_spec_u64_to_from_le_bytes();
    }
    if buf.len() - pos < 8 {
        proof {
            assert forall|x: u64, rest: Seq<u8>|
                buf@.skip(pos as int) == enc_u64(x) + rest implies false by {
                assert(buf@.skip(pos as int).len() == buf@.len() - pos);
                assert((enc_u64(x) + rest).len() >= 8);
            }
        }
        return None;
    }
    let bytes = &buf.as_slice()[pos..pos + 8];
    let x = u64_from_le_bytes(bytes);
    proof {
        assert(bytes@ == buf@.subrange(pos as int, pos + 8));
        assert forall|xx: u64, rest: Seq<u8>|
            buf@.skip(pos as int) == enc_u64(xx) + rest implies x == xx by {
            assert(enc_u64(xx).len() == 8);
            assert(buf@.subrange(pos as int, pos + 8) =~= enc_u64(xx)) by {
                assert(forall|i: int|
                    0 <= i < 8 ==> buf@.subrange(pos as int, pos + 8)[i] == buf@.skip(
                        pos as int,
                    )[i]);
            }
            assert(x == spec_u64_from_le_bytes(enc_u64(xx)));
        }
    }
    Some((x, pos + 8))
}

/// Read a signed stamp.
fn read_i64(buf: &Vec<u8>, pos: usize) -> (r: Option<(i64, usize)>)
    requires
        pos <= buf@.len(),
    ensures
        r is Some ==> (r->0).1 == pos + 8 && pos + 8 <= buf@.len(),
        forall|x: i64, rest: Seq<u8>|
            buf@.skip(pos as int) == enc_i64(x) + rest ==> r is Some && (r->0).0 == x,
{
    match read_u64(buf, pos) {
        None => None,
        Some((u, p)) => {
            let y: i64 = u as i64;
            proof {
                assert forall|x: i64, rest: Seq<u8>|
                    buf@.skip(pos as int) == enc_i64(x) + rest implies y == x by {
                    assert(u == x as u64);
                    assert((x as u64) as i64 == x) by (bit_vector);
                }
            }
            Some((y, p))
        },
    }
}

/// Read a string: its byte count, then its UTF-8 bytes.
fn read_str(buf: &Vec<u8>, pos: usize) -> (r: Option<(String, usize)>)
    requires
        pos <= buf@.len(),
    ensures
        r is Some ==> pos < (r->0).1 <= buf@.len(),
        forall|s: Seq<char>, rest: Seq<u8>|
            buf@.skip(pos as int) == enc_str(s) + rest ==> r is Some && (r->0).0@ == s && (r->0).1
                == pos + enc_str(s).len(),
{
    proof {
        lemma_auto_spec_u64_to_from_le_bytes();
    }
    let nr = read_u64(buf, pos);
    if nr.is_none() {
        proof {
            assert forall|s: Seq<char>, rest: Seq<u8>|
                buf@.skip(pos as int) == enc_str(s) + rest implies false by {
                assert(buf@.skip(pos as int) =~= enc_u64(encode_utf8(s).len() as u64) + (
                encode_utf8(s) + rest));
            }
        }
        return None;
    }
    let (n, p1) = nr.unwrap();
    let rem = buf.len() - p1;
    if n > rem as u64 {
        proof {
            assert forall|s: Seq<char>, rest: Seq<u8>|
                buf@.skip(pos as int) == enc_str(s) + rest implies false by {
                let utf8 = encode_utf8(s);
                assert(buf@.skip(pos as int) =~= enc_u64(utf8.len() as u64) + (utf8 + rest));
                assert(n == utf8.len() as u64);
                assert(buf@.skip(pos as int).len() == 8 + utf8.len() + rest.len());
                assert(utf8.len() <= buf@.len() - p1);
            }
        }
        return None;
    }
    let nn = n as usize;
    let bytes = &buf.as_slice()[p1..p1 + nn];
    let v = vstd::slice::slice_to_vec(bytes);
    let ghost vbytes = v@;
    let os = string_from_utf8(v);
    proof {
        broadcast use encode_utf8_valid_utf8;
        broadcast use encode_utf8_decode_utf8;

        assert(vbytes == buf@.subrange(p1 as int, p1 + nn));
        assert forall|s: Seq<char>, rest: Seq<u8>|
            buf@.skip(pos as int) == enc_str(s) + rest implies os is Some && os->0@ == s && pos
            + enc_str(s).len() == p1 + nn by {
            let utf8 = encode_utf8(s);
            assert(buf@.skip(pos as int) =~= enc_u64(utf8.len() as u64) + (utf8 + rest));
            assert(n == utf8.len() as u64);
            assert(buf@.skip(pos as int).len() == 8 + utf8.len() + rest.len());
            assert(utf8.len() <= buf@.len() - p1);
            assert(utf8.len() as u64 == n && utf8.len() == nn);
            assert(vbytes =~= utf8) by {
                assert(forall|i: int|
                    0 <= i < nn ==> #[trigger] buf@.subrange(p1 as int, p1 + nn)[i] == buf@.skip(
                        pos as int,
                    )[8 + i]);
            }
            assert(valid_utf8(utf8));
            assert(os is Some);
            assert(os->0@ == decode_utf8(utf8));
            assert(decode_utf8(encode_utf8(s)) == s);
            assert(enc_str(s).len() == 8 + utf8.len());
        }
    }
    match os {
        Some(st) => Some((st, p1 + nn)),
        None => None,
    }
}

/// Read a bank name tag.
fn read_bank_name(buf: &Vec<u8>, pos: usize) -> (r: Option<(BankName, usize)>)
    requires
        pos <= buf@.len(),
    ensures
        r is Some ==> (r->0).1 == pos + 1 && pos + 1 <= buf@.len(),
        forall|b: BankName, rest: Seq<u8>|
            buf@.skip(pos as int) == enc_bank_name(b) + rest ==> r is Some && (r->0).0 == b,
{
    let br = read_byte(buf, pos);
    proof {
        assert forall|b: BankName, rest: Seq<u8>|
            buf@.skip(pos as int) == enc_bank_name(b) + rest implies pos < buf@.len() && buf@[
            pos as int
        ] == enc_bank_name(b)[0] by {
            assert(enc_bank_name(b).len() == 1);
            assert(buf@.skip(pos as int).len() == buf@.len() - pos);
            assert(pos < buf@.len());
            assert(buf@.skip(pos as int)[0] == buf@[pos as int]);
        }
    }
    match br {
        None => None,
        Some((b, p)) => {
            if b == 97 {
                Some((BankName::Active, p))
            } else if b == 99 {
                Some((BankName::Closed, p))
            } else {
                None
            }
        },
    }
}

/// Stepping past a recognized prefix: what remains is the tail.
pub proof fn lemma_skip_concat(bufv: Seq<u8>, pos: int, a: Seq<u8>, b: Seq<u8>)
    requires
        0 <= pos <= bufv.len(),
        bufv.skip(pos) == a + b,
    ensures
        pos + a.len() <= bufv.len(),
        bufv.skip(pos + a.len()) == b,
{
    assert(bufv.skip(pos).len() == bufv.len() - pos);
    assert(bufv.skip(pos + a.len()) =~= b) by {
        assert(forall|i: int|
            0 <= i < b.len() ==> #[trigger] bufv.skip(pos + a.len())[i] == bufv.skip(pos)[a.len()
                + i]);
    }
}

/// A record encoding laid out as its ten parts, nested to the right.
#[verifier::rlimit(100)]
#[verifier::spinoff_prover]
pub proof fn lemma_task_parts(bufv: Seq<u8>, pos: int, t: TaskV, rest: Seq<u8>)
    requires
        0 <= pos <= bufv.len(),
        bufv.skip(pos) == enc_task(t) + rest,
    ensures
        bufv.skip(pos) == enc_kind(t.kind) + (enc_str(t.metadata.id) + (enc_str(t.metadata.name)
            + (enc_opt_str(t.metadata.description) + (enc_u64(t.metadata.priority as u64) + (
        enc_i64(t.metadata.created) + (enc_i64(t.metadata.last_completed) + (enc_opt_i64(
            t.metadata.closed_at,
        ) + (enc_u64(t.tags.len() as u64) + (enc_str_seq(t.tags) + rest))))))))),
{
    assert(bufv.skip(pos) =~= enc_kind(t.kind) + (enc_str(t.metadata.id) + (enc_str(
        t.metadata.name,
    ) + (enc_opt_str(t.metadata.description) + (enc_u64(t.metadata.priority as u64) + (enc_i64(
        t.metadata.created,
    ) + (enc_i64(t.metadata.last_completed) + (enc_opt_i64(t.metadata.closed_at) + (enc_u64(
        t.tags.len() as u64,
    ) + (enc_str_seq(t.tags) + rest))))))))));
}

/// Read a record flavour tag.
fn read_kind(buf: &Vec<u8>, pos: usize) -> (r: Option<(TaskType, usize)>)
    requires
        pos <= buf@.len(),
    ensures
        r is Some ==> (r->0).1 == pos + 1 && pos + 1 <= buf@.len(),
        forall|k: TaskType, rest: Seq<u8>|
            buf@.skip(pos as int) == enc_kind(k) + rest ==> r is Some && (r->0).0 == k,
{
    let br = read_byte(buf, pos);
    proof {
        assert forall|k: TaskType, rest: Seq<u8>|
            buf@.skip(pos as int) == enc_kind(k) + rest implies pos < buf@.len() && buf@[
            pos as int
        ] == enc_kind(k)[0] by {
            assert(enc_kind(k).len() == 1);
            assert(buf@.skip(pos as int).len() == buf@.len() - pos);
            assert(pos < buf@.len());
            assert(buf@.skip(pos as int)[0] == buf@[pos as int]);
        }
    }
    match br {
        None => None,
        Some((b, p)) => {
            if b == 84 {
                Some((TaskType::Todo, p))
            } else if b == 68 {
                Some((TaskType::Deadline, p))
            } else {
                None
            }
        },
    }
}

/// Read an optional string: a presence byte, then the string when present.
fn read_opt_str(buf: &Vec<u8>, pos: usize) -> (r: Option<(Option<String>, usize)>)
    requires
        pos <= buf@.len(),
    ensures
        r is Some ==> pos < (r->0).1 <= buf@.len(),
        forall|o: Option<Seq<char>>, rest: Seq<u8>|
            buf@.skip(pos as int) == enc_opt_str(o) + rest ==> r is Some && ((r->0).0 is Some <==> o
                is Some) && (o is Some ==> ((r->0).0)->0@ == o->0) && (r->0).1 == pos + enc_opt_str(
                o,
            ).len(),
{
    let br = read_byte(buf, pos);
    proof {
        assert forall|o: Option<Seq<char>>, rest: Seq<u8>|
            buf@.skip(pos as int) == enc_opt_str(o) + rest implies pos < buf@.len() && buf@[
            pos as int
        ] == enc_opt_str(o)[0] by {
            assert(enc_opt_str(o).len() >= 1);
            assert(buf@.skip(pos as int).len() == buf@.len() - pos);
            assert(buf@.skip(pos as int)[0] == buf@[pos as int]);
            assert((enc_opt_str(o) + rest)[0] == enc_opt_str(o)[0]);
        }
    }
    match br {
        None => None,
        Some((b, p1)) => {
            if b == 0 {
                proof {
                    assert forall|o: Option<Seq<char>>, rest: Seq<u8>|
                        buf@.skip(pos as int) == enc_opt_str(o) + rest implies o is None by {
                        if o is Some {
                            assert(enc_opt_str(o)[0] == 1);
                        }
                    }
                }
                Some((None, p1))
            } else if b == 1 {
                proof {
                    assert forall|o: Option<Seq<char>>, rest: Seq<u8>|
                        buf@.skip(pos as int) == enc_opt_str(o) + rest implies o is Some && buf@.skip(
                        p1 as int,
                    ) == enc_str(o->0) + rest by {
                        if o is None {
                            assert(enc_opt_str(o)[0] == 0);
                        }
                        assert(buf@.skip(pos as int) =~= seq![1u8] + (enc_str(o->0) + rest));
                        lemma_skip_concat(buf@, pos as int, seq![1u8], enc_str(o->0) + rest);
                    }
                }
                match read_str(buf, p1) {
                    None => None,
                    Some((s, p2)) => Some((Some(s), p2)),
                }
            } else {
                proof {
                    assert forall|o: Option<Seq<char>>, rest: Seq<u8>|
                        buf@.skip(pos as int) == enc_opt_str(o) + rest implies false by {
                        if o is Some {
                            assert(enc_opt_str(o)[0] == 1);
                        } else {
                            assert(enc_opt_str(o)[0] == 0);
                        }
                    }
                }
                None
            }
        },
    }
}

/// Read an optional stamp: a presence byte, then the stamp when present.
fn read_opt_i64(buf: &Vec<u8>, pos: usize) -> (r: Option<(Option<i64>, usize)>)
    requires
        pos <= buf@.len(),
    ensures
        r is Some ==> pos < (r->0).1 <= buf@.len(),
        forall|o: Option<i64>, rest: Seq<u8>|
            buf@.skip(pos as int) == enc_opt_i64(o) + rest ==> r is Some && (r->0).0 == o && (
            r->0).1 == pos + enc_opt_i64(o).len(),
{
    proof {
        lemma_auto_spec_u64_to_from_le_bytes();
    }
    let br = read_byte(buf, pos);
    proof {
        assert forall|o: Option<i64>, rest: Seq<u8>|
            buf@.skip(pos as int) == enc_opt_i64(o) + rest implies pos < buf@.len() && buf@[
            pos as int
        ] == enc_opt_i64(o)[0] by {
            assert(enc_opt_i64(o).len() >= 1);
            assert(buf@.skip(pos as int).len() == buf@.len() - pos);
            assert(buf@.skip(pos as int)[0] == buf@[pos as int]);
            assert((enc_opt_i64(o) + rest)[0] == enc_opt_i64(o)[0]);
        }
    }
    match br {
        None => None,
        Some((b, p1)) => {
            if b == 0 {
                proof {
                    assert forall|o: Option<i64>, rest: Seq<u8>|
                        buf@.skip(pos as int) == enc_opt_i64(o) + rest implies o is None by {
                        if o is Some {
                            assert(enc_opt_i64(o)[0] == 1);
                        }
                    }
                }
                Some((None, p1))
            } else if b == 1 {
                proof {
                    assert forall|o: Option<i64>, rest: Seq<u8>|
                        buf@.skip(pos as int) == enc_opt_i64(o) + rest implies o is Some && buf@.skip(
                        p1 as int,
                    ) == enc_i64(o->0) + rest by {
                        if o is None {
                            assert(enc_opt_i64(o)[0] == 0);
                        }
                        assert(buf@.skip(pos as int) =~= seq![1u8] + (enc_i64(o->0) + rest));
                        lemma_skip_concat(buf@, pos as int, seq![1u8], enc_i64(o->0) + rest);
                    }
                }
                match read_i64(buf, p1) {
                    None => None,
                    Some((x, p2)) => Some((Some(x), p2)),
                }
            } else {
                proof {
                    assert forall|o: Option<i64>, rest: Seq<u8>|
                        buf@.skip(pos as int) == enc_opt_i64(o) + rest implies false by {
                        if o is Some {
                            assert(enc_opt_i64(o)[0] == 1);
                        } else {
                            assert(enc_opt_i64(o)[0] == 0);
                        }
                    }
                }
                None
            }
        },
    }
}

/// Read `count` strings, one after the other.
fn read_str_seq(buf: &Vec<u8>, pos: usize, count: u64) -> (r: Option<(Vec<String>, usize)>)
    requires
        pos <= buf@.len(),
    ensures
        r is Some ==> pos <= (r->0).1 <= buf@.len(),
        forall|ss: Seq<Seq<char>>, rest: Seq<u8>|
            ss.len() == count && buf@.skip(pos as int) == enc_str_seq(ss) + rest ==> r is Some && (
            r->0).0.deep_view() == ss && (r->0).1 == pos + enc_str_seq(ss).len(),
    decreases count,
{
    if count == 0 {
        let v: Vec<String> = Vec::new();
        proof {
            assert forall|ss: Seq<Seq<char>>, rest: Seq<u8>| #![trigger enc_str_seq(ss) + rest]
                ss.len() == count && buf@.skip(pos as int) == enc_str_seq(ss) + rest implies
                v.deep_view() == ss && enc_str_seq(ss).len() == 0 by {
                assert(v.deep_view() =~= ss);
            }
        }
        return Some((v, pos));
    }
    proof {
        assert forall|ss: Seq<Seq<char>>, rest: Seq<u8>| #![trigger enc_str_seq(ss) + rest]
            ss.len() == count && buf@.skip(pos as int) == enc_str_seq(ss) + rest implies buf@.skip(
            pos as int,
        ) == enc_str(ss[0]) + (enc_str_seq(ss.drop_first()) + rest) by {
            assert(buf@.skip(pos as int) =~= enc_str(ss[0]) + (enc_str_seq(ss.drop_first())
                + rest));
        }
    }
    let first = read_str(buf, pos);
    match first {
        None => None,
        Some((s0, p1)) => {
            proof {
                assert forall|ss: Seq<Seq<char>>, rest: Seq<u8>| #![trigger enc_str_seq(ss) + rest]
                    ss.len() == count && buf@.skip(pos as int) == enc_str_seq(ss) + rest implies
                    ss.drop_first().len() == count - 1 && buf@.skip(p1 as int) == enc_str_seq(
                    ss.drop_first(),
                ) + rest by {
                    lemma_skip_concat(
                        buf@,
                        pos as int,
                        enc_str(ss[0]),
                        enc_str_seq(ss.drop_first()) + rest,
                    );
                }
            }
            let tail = read_str_seq(buf, p1, count - 1);
            match tail {
                None => None,
                Some((mut v, p2)) => {
                    let ghost tail_dv = v.deep_view();
                    v.insert(0, s0);
                    proof {
                        assert forall|ss: Seq<Seq<char>>, rest: Seq<u8>| #![trigger enc_str_seq(ss) + rest]
                            ss.len() == count && buf@.skip(pos as int) == enc_str_seq(ss) + rest
                            implies v.deep_view() == ss && p2 == pos + enc_str_seq(ss).len() by {
                            assert(buf@.skip(pos as int) =~= enc_str(ss[0]) + (enc_str_seq(
                                ss.drop_first(),
                            ) + rest));
                            lemma_skip_concat(
                                buf@,
                                pos as int,
                                enc_str(ss[0]),
                                enc_str_seq(ss.drop_first()) + rest,
                            );
                            assert(s0@ == ss[0]);
                            assert(tail_dv == ss.drop_first());
                            assert(v.deep_view() =~= ss) by {
                                assert(v@.len() == tail_dv.len() + 1);
                                assert(v@[0] == s0);
                                assert(forall|i: int|
                                    1 <= i < v@.len() ==> #[trigger] v.deep_view()[i] == tail_dv[i
                                        - 1]);
                            }
                        }
                    }
                    Some((v, p2))
                },
            }
        },
    }
}

/// Read one record.
#[verifier::rlimit(100)]
#[verifier::spinoff_prover]
fn read_task(buf: &Vec<u8>, pos: usize) -> (r: Option<(Task, usize)>)
    requires
        pos <= buf@.len(),
    ensures
        r is Some ==> pos < (r->0).1 <= buf@.len(),
        forall|t: TaskV, rest: Seq<u8>|
            buf@.skip(pos as int) == enc_task(t) + rest ==> r is Some && (r->0).0@ == t && (r->0).1
                == pos + enc_task(t).len(),
{
    proof {
        lemma_auto_spec_u64_to_from_le_bytes();
        assert forall|t: TaskV, rest: Seq<u8>| #![trigger enc_task(t) + rest]
            buf@.skip(pos as int) == enc_task(t) + rest implies buf@.skip(pos as int) == enc_kind(
            t.kind,
        ) + (enc_str(t.metadata.id) + (enc_str(t.metadata.name) + (enc_opt_str(
            t.metadata.description,
        ) + (enc_u64(t.metadata.priority as u64) + (enc_i64(t.metadata.created) + (enc_i64(
            t.metadata.last_completed,
        ) + (enc_opt_i64(t.metadata.closed_at) + (enc_u64(t.tags.len() as u64) + (enc_str_seq(
            t.tags,
        ) + rest))))))))) by {
            lemma_task_parts(buf@, pos as int, t, rest);
        }
    }
    let k_r = read_kind(buf, pos);
    if k_r.is_none() {
        return None;
    }
    let (kind, p1) = k_r.unwrap();
    proof {
        assert forall|t: TaskV, rest: Seq<u8>| #![trigger enc_task(t) + rest]
            buf@.skip(pos as int) == enc_task(t) + rest implies kind == t.kind && buf@.skip(
            p1 as int,
        ) == enc_str(t.metadata.id) + (enc_str(t.metadata.name) + (enc_opt_str(
            t.metadata.description,
        ) + (enc_u64(t.metadata.priority as u64) + (enc_i64(t.metadata.created) + (enc_i64(
            t.metadata.last_completed,
        ) + (enc_opt_i64(t.metadata.closed_at) + (enc_u64(t.tags.len() as u64) + (enc_str_seq(
            t.tags,
        ) + rest)))))))) by {
            lemma_task_parts(buf@, pos as int, t, rest);
            lemma_skip_concat(
                buf@,
                pos as int,
                enc_kind(t.kind),
                enc_str(t.metadata.id) + (enc_str(t.metadata.name) + (enc_opt_str(
                    t.metadata.description,
                ) + (enc_u64(t.metadata.priority as u64) + (enc_i64(t.metadata.created) + (enc_i64(
                    t.metadata.last_completed,
                ) + (enc_opt_i64(t.metadata.closed_at) + (enc_u64(t.tags.len() as u64) + (
                enc_str_seq(t.tags) + rest)))))))),
            );
        }
    }
    let id_r = read_str(buf, p1);
    if id_r.is_none() {
        return None;
    }
    let (id, p2) = id_r.unwrap();
    proof {
        assert forall|t: TaskV, rest: Seq<u8>| #![trigger enc_task(t) + rest]
            buf@.skip(pos as int) == enc_task(t) + rest implies id@ == t.metadata.id && buf@.skip(
            p2 as int,
        ) == enc_str(t.metadata.name) + (enc_opt_str(t.metadata.description) + (enc_u64(
            t.metadata.priority as u64,
        ) + (enc_i64(t.metadata.created) + (enc_i64(t.metadata.last_completed) + (enc_opt_i64(
            t.metadata.closed_at,
        ) + (enc_u64(t.tags.len() as u64) + (enc_str_seq(t.tags) + rest))))))) by {
            lemma_skip_concat(
                buf@,
                p1 as int,
                enc_str(t.metadata.id),
                enc_str(t.metadata.name) + (enc_opt_str(t.metadata.description) + (enc_u64(
                    t.metadata.priority as u64,
                ) + (enc_i64(t.metadata.created) + (enc_i64(t.metadata.last_completed) + (
                enc_opt_i64(t.metadata.closed_at) + (enc_u64(t.tags.len() as u64) + (enc_str_seq(
                    t.tags,
                ) + rest))))))),
            );
        }
    }
    let name_r = read_str(buf, p2);
    if name_r.is_none() {
        return None;
    }
    let (name, p3) = name_r.unwrap();
    proof {
        assert forall|t: TaskV, rest: Seq<u8>| #![trigger enc_task(t) + rest]
            buf@.skip(pos as int) == enc_task(t) + rest implies name@ == t.metadata.name
            && buf@.skip(p3 as int) == enc_opt_str(t.metadata.description) + (enc_u64(
            t.metadata.priority as u64,
        ) + (enc_i64(t.metadata.created) + (enc_i64(t.metadata.last_completed) + (enc_opt_i64(
            t.metadata.closed_at,
        ) + (enc_u64(t.tags.len() as u64) + (enc_str_seq(t.tags) + rest)))))) by {
            lemma_skip_concat(
                buf@,
                p2 as int,
                enc_str(t.metadata.name),
                enc_opt_str(t.metadata.description) + (enc_u64(t.metadata.priority as u64) + (
                enc_i64(t.metadata.created) + (enc_i64(t.metadata.last_completed) + (enc_opt_i64(
                    t.metadata.closed_at,
                ) + (enc_u64(t.tags.len() as u64) + (enc_str_seq(t.tags) + rest)))))),
            );
        }
    }
    let desc_r = read_opt_str(buf, p3);
    if desc_r.is_none() {
        return None;
    }
    let (desc, p4) = desc_r.unwrap();
    proof {
        assert forall|t: TaskV, rest: Seq<u8>| #![trigger enc_task(t) + rest]
            buf@.skip(pos as int) == enc_task(t) + rest implies (desc is Some <==>
        t.metadata.description is Some) && (t.metadata.description is Some ==> desc->0@
            == t.metadata.description->0) && buf@.skip(p4 as int) == enc_u64(
            t.metadata.priority as u64,
        ) + (enc_i64(t.metadata.created) + (enc_i64(t.metadata.last_completed) + (enc_opt_i64(
            t.metadata.closed_at,
        ) + (enc_u64(t.tags.len() as u64) + (enc_str_seq(t.tags) + rest))))) by {
            lemma_skip_concat(
                buf@,
                p3 as int,
                enc_opt_str(t.metadata.description),
                enc_u64(t.metadata.priority as u64) + (enc_i64(t.metadata.created) + (enc_i64(
                    t.metadata.last_completed,
                ) + (enc_opt_i64(t.metadata.closed_at) + (enc_u64(t.tags.len() as u64) + (
                enc_str_seq(t.tags) + rest))))),
            );
        }
    }
    let prio_r = read_u64(buf, p4);
    if prio_r.is_none() {
        return None;
    }
    let (prio_u, p5) = prio_r.unwrap();
    proof {
        assert forall|t: TaskV, rest: Seq<u8>| #![trigger enc_task(t) + rest]
            buf@.skip(pos as int) == enc_task(t) + rest implies prio_u == t.metadata.priority as u64
            && buf@.skip(p5 as int) == enc_i64(t.metadata.created) + (enc_i64(
            t.metadata.last_completed,
        ) + (enc_opt_i64(t.metadata.closed_at) + (enc_u64(t.tags.len() as u64) + (enc_str_seq(
            t.tags,
        ) + rest)))) by {
            lemma_skip_concat(
                buf@,
                p4 as int,
                enc_u64(t.metadata.priority as u64),
                enc_i64(t.metadata.created) + (enc_i64(t.metadata.last_completed) + (enc_opt_i64(
                    t.metadata.closed_at,
                ) + (enc_u64(t.tags.len() as u64) + (enc_str_seq(t.tags) + rest)))),
            );
        }
    }
    if prio_u > 65535 {
        return None;
    }
    let prio: u16 = prio_u as u16;
    let created_r = read_i64(buf, p5);
    if created_r.is_none() {
        return None;
    }
    let (created, p6) = created_r.unwrap();
    proof {
        assert forall|t: TaskV, rest: Seq<u8>| #![trigger enc_task(t) + rest]
            buf@.skip(pos as int) == enc_task(t) + rest implies created == t.metadata.created
            && buf@.skip(p6 as int) == enc_i64(t.metadata.last_completed) + (enc_opt_i64(
            t.metadata.closed_at,
        ) + (enc_u64(t.tags.len() as u64) + (enc_str_seq(t.tags) + rest))) by {
            lemma_skip_concat(
                buf@,
                p5 as int,
                enc_i64(t.metadata.created),
                enc_i64(t.metadata.last_completed) + (enc_opt_i64(t.metadata.closed_at) + (enc_u64(
                    t.tags.len() as u64,
                ) + (enc_str_seq(t.tags) + rest))),
            );
        }
    }
    let lastc_r = read_i64(buf, p6);
    if lastc_r.is_none() {
        return None;
    }
    let (lastc, p7) = lastc_r.unwrap();
    proof {
        assert forall|t: TaskV, rest: Seq<u8>| #![trigger enc_task(t) + rest]
            buf@.skip(pos as int) == enc_task(t) + rest implies lastc == t.metadata.last_completed
            && buf@.skip(p7 as int) == enc_opt_i64(t.metadata.closed_at) + (enc_u64(
            t.tags.len() as u64,
        ) + (enc_str_seq(t.tags) + rest)) by {
            lemma_skip_concat(
                buf@,
                p6 as int,
                enc_i64(t.metadata.last_completed),
                enc_opt_i64(t.metadata.closed_at) + (enc_u64(t.tags.len() as u64) + (enc_str_seq(
                    t.tags,
                ) + rest)),
            );
        }
    }
    let closed_r = read_opt_i64(buf, p7);
    if closed_r.is_none() {
        return None;
    }
    let (closed, p8) = closed_r.unwrap();
    proof {
        assert forall|t: TaskV, rest: Seq<u8>| #![trigger enc_task(t) + rest]
            buf@.skip(pos as int) == enc_task(t) + rest implies closed == t.metadata.closed_at
            && buf@.skip(p8 as int) == enc_u64(t.tags.len() as u64) + (enc_str_seq(t.tags)
            + rest) by {
            lemma_skip_concat(
                buf@,
                p7 as int,
                enc_opt_i64(t.metadata.closed_at),
                enc_u64(t.tags.len() as u64) + (enc_str_seq(t.tags) + rest),
            );
        }
    }
    let cnt_r = read_u64(buf, p8);
    if cnt_r.is_none() {
        return None;
    }
    let (cnt, p9) = cnt_r.unwrap();
    proof {
        assert forall|t: TaskV, rest: Seq<u8>| #![trigger enc_task(t) + rest]
            buf@.skip(pos as int) == enc_task(t) + rest implies cnt == t.tags.len() as u64
            && t.tags.len() == cnt && buf@.skip(p9 as int) == enc_str_seq(t.tags) + rest by {
            lemma_skip_concat(
                buf@,
                p8 as int,
                enc_u64(t.tags.len() as u64),
                enc_str_seq(t.tags) + rest,
            );
            lemma_enc_str_seq_len(t.tags);
            assert(buf@.len() <= usize::MAX) by {
                broadcast use vstd::std_specs::vec::axiom_spec_len;

                assert(vstd::std_specs::vec::spec_vec_len(buf) == buf@.len());
            }
            assert(enc_str_seq(t.tags).len() <= buf@.len());
            assert(t.tags.len() <= buf@.len());
            assert(t.tags.len() == t.tags.len() as u64);
        }
    }
    let tags_r = read_str_seq(buf, p9, cnt);
    if tags_r.is_none() {
        return None;
    }
    let (tags, p10) = tags_r.unwrap();
    let task = Task {
        task: kind,
        metadata: Metadata {
            id,
            description: desc,
            name,
            priority: prio,
            created,
            last_completed: lastc,
            closed_at: closed,
        },
        tags,
    };
    proof {
        assert forall|t: TaskV, rest: Seq<u8>| #![trigger enc_task(t) + rest]
            buf@.skip(pos as int) == enc_task(t) + rest implies task@ == t && p10 == pos + enc_task(
            t,
        ).len() by {
            assert(task@.tags == t.tags);
            assert(task@.metadata =~= t.metadata);
            assert(task@ =~= t);
        }
    }
    Some((task, p10))
}

/// Read `count` records, one after the other.
fn read_task_seq(buf: &Vec<u8>, pos: usize, count: u64) -> (r: Option<(Vec<Task>, usize)>)
    requires
        pos <= buf@.len(),
    ensures
        r is Some ==> pos <= (r->0).1 <= buf@.len(),
        forall|s: Seq<TaskV>, rest: Seq<u8>| #![trigger enc_task_seq(s) + rest]
            s.len() == count && buf@.skip(pos as int) == enc_task_seq(s) + rest ==> r is Some && (
            r->0).0.deep_view() == s && (r->0).1 == pos + enc_task_seq(s).len(),
    decreases count,
{
    if count == 0 {
        let v: Vec<Task> = Vec::new();
        proof {
            assert forall|s: Seq<TaskV>, rest: Seq<u8>| #![trigger enc_task_seq(s) + rest]
                s.len() == count && buf@.skip(pos as int) == enc_task_seq(s) + rest implies
                v.deep_view() == s && enc_task_seq(s).len() == 0 by {
                assert(v.deep_view() =~= s);
            }
        }
        return Some((v, pos));
    }
    proof {
        assert forall|s: Seq<TaskV>, rest: Seq<u8>| #![trigger enc_task_seq(s) + rest]
            s.len() == count && buf@.skip(pos as int) == enc_task_seq(s) + rest implies buf@.skip(
            pos as int,
        ) == enc_task(s[0]) + (enc_task_seq(s.drop_first()) + rest) by {
            assert(buf@.skip(pos as int) =~= enc_task(s[0]) + (enc_task_seq(s.drop_first())
                + rest));
        }
    }
    let first = read_task(buf, pos);
    match first {
        None => None,
        Some((t0, p1)) => {
            proof {
                assert forall|s: Seq<TaskV>, rest: Seq<u8>| #![trigger enc_task_seq(s) + rest]
                    s.len() == count && buf@.skip(pos as int) == enc_task_seq(s) + rest implies
                    s.drop_first().len() == count - 1 && buf@.skip(p1 as int) == enc_task_seq(
                    s.drop_first(),
                ) + rest by {
                    lemma_skip_concat(
                        buf@,
                        pos as int,
                        enc_task(s[0]),
                        enc_task_seq(s.drop_first()) + rest,
                    );
                }
            }
            let tail = read_task_seq(buf, p1, count - 1);
            match tail {
                None => None,
                Some((mut v, p2)) => {
                    let ghost tail_dv = v.deep_view();
                    v.insert(0, t0);
                    proof {
                        assert forall|s: Seq<TaskV>, rest: Seq<u8>| #![trigger enc_task_seq(s) + rest]
                            s.len() == count && buf@.skip(pos as int) == enc_task_seq(s) + rest
                            implies v.deep_view() == s && p2 == pos + enc_task_seq(s).len() by {
                            assert(buf@.skip(pos as int) =~= enc_task(s[0]) + (enc_task_seq(
                                s.drop_first(),
                            ) + rest));
                            lemma_skip_concat(
                                buf@,
                                pos as int,
                                enc_task(s[0]),
                                enc_task_seq(s.drop_first()) + rest,
                            );
                            assert(t0@ == s[0]);
                            assert(tail_dv == s.drop_first());
                            assert(v.deep_view() =~= s) by {
                                assert(v@.len() == tail_dv.len() + 1);
                                assert(v@[0] == t0);
                                assert(forall|i: int|
                                    1 <= i < v@.len() ==> #[trigger] v.deep_view()[i] == tail_dv[i
                                        - 1]);
                            }
                        }
                    }
                    Some((v, p2))
                },
            }
        },
    }
}

/// Decode a bank document, in full: trailing bytes are rejected.
pub fn decode_bank(buf: &Vec<u8>) -> (r: Option<Bank>)
    ensures
        forall|bv: Seq<TaskV>| #![trigger enc_bank(bv)]
            buf@ == enc_bank(bv) ==> r is Some && r->0@ == bv,
{
    proof {
        lemma_auto_spec_u64_to_from_le_bytes();
        assert forall|bv: Seq<TaskV>| #![trigger enc_bank(bv)]
            buf@ == enc_bank(bv) implies buf@.skip(0) == seq![66u8] + (enc_u64(bv.len() as u64) + (
        enc_task_seq(bv) + Seq::<u8>::empty())) by {
            assert(buf@.skip(0) =~= seq![66u8] + (enc_u64(bv.len() as u64) + (enc_task_seq(bv)
                + Seq::<u8>::empty())));
        }
    }
    let b_r = read_byte(buf, 0);
    match b_r {
        None => None,
        Some((b, _p)) => {
            if b != 66 {
                return None;
            }
            let cnt_r = read_u64(buf, 1);
            proof {
                assert forall|bv: Seq<TaskV>| #![trigger enc_bank(bv)]
                    buf@ == enc_bank(bv) implies buf@.skip(1) == enc_u64(bv.len() as u64) + (
                enc_task_seq(bv) + Seq::<u8>::empty()) by {
                    lemma_skip_concat(
                        buf@,
                        0,
                        seq![66u8],
                        enc_u64(bv.len() as u64) + (enc_task_seq(bv) + Seq::<u8>::empty()),
                    );
                }
            }
            match cnt_r {
                None => None,
                Some((cnt, p1)) => {
                    proof {
                        assert forall|bv: Seq<TaskV>| #![trigger enc_bank(bv)]
                            buf@ == enc_bank(bv) implies bv.len() == cnt && buf@.skip(p1 as int)
                            == enc_task_seq(bv) + Seq::<u8>::empty() by {
                            lemma_skip_concat(
                                buf@,
                                1,
                                enc_u64(bv.len() as u64),
                                enc_task_seq(bv) + Seq::<u8>::empty(),
                            );
                            lemma_enc_task_seq_len(bv);
                            assert(buf@.len() <= usize::MAX) by {
                                broadcast use vstd::std_specs::vec::axiom_spec_len;

                                assert(vstd::std_specs::vec::spec_vec_len(buf) == buf@.len());
                            }
                            assert(bv.len() == bv.len() as u64);
                        }
                    }
                    match read_task_seq(buf, p1, cnt) {
                        None => None,
                        Some((tasks, p2)) => {
                            if p2 != buf.len() {
                                proof {
                                    assert forall|bv: Seq<TaskV>| #![trigger enc_bank(bv)]
                                        buf@ == enc_bank(bv) implies false by {
                                        assert(p2 == p1 + enc_task_seq(bv).len());
                                    }
                                }
                                return None;
                            }
                            Some(Bank { tasks })
                        },
                    }
                },
            }
        },
    }
}

/// Read the parts of a `Move` entry, after its tag.
#[verifier::rlimit(100)]
#[verifier::spinoff_prover]
fn read_undo_move(buf: &Vec<u8>, p1: usize) -> (r: Option<(UndoItem, usize)>)
    requires
        p1 <= buf@.len(),
    ensures
        r is Some ==> p1 < (r->0).1 <= buf@.len(),
        forall|task: TaskV, from: BankName, to: BankName, rest: Seq<u8>|
            #![trigger enc_task(task) + (enc_bank_name(from) + (enc_bank_name(to) + rest))]
            buf@.skip(p1 as int) == enc_task(task) + (enc_bank_name(from) + (enc_bank_name(to)
                + rest)) ==> r is Some && (r->0).0@ == (UndoItemV::Move { task, from, to }) && (
            r->0).1 == p1 + enc_task(task).len() + 2,
{
    let t_r = read_task(buf, p1);
    if t_r.is_none() {
        return None;
    }
    let (task, p2) = t_r.unwrap();
    proof {
        assert forall|task_v: TaskV, from: BankName, to: BankName, rest: Seq<u8>|
            #![trigger enc_task(task_v) + (enc_bank_name(from) + (enc_bank_name(to) + rest))]
            buf@.skip(p1 as int) == enc_task(task_v) + (enc_bank_name(from) + (enc_bank_name(to)
                + rest)) implies task@ == task_v && buf@.skip(p2 as int) == enc_bank_name(from) + (
        enc_bank_name(to) + rest) by {
            lemma_skip_concat(
                buf@,
                p1 as int,
                enc_task(task_v),
                enc_bank_name(from) + (enc_bank_name(to) + rest),
            );
        }
    }
    let f_r = read_bank_name(buf, p2);
    if f_r.is_none() {
        return None;
    }
    let (from, p3) = f_r.unwrap();
    proof {
        assert forall|task_v: TaskV, from_v: BankName, to: BankName, rest: Seq<u8>|
            #![trigger enc_task(task_v) + (enc_bank_name(from_v) + (enc_bank_name(to) + rest))]
            buf@.skip(p1 as int) == enc_task(task_v) + (enc_bank_name(from_v) + (enc_bank_name(to)
                + rest)) implies from == from_v && buf@.skip(p3 as int) == enc_bank_name(to)
            + rest by {
            lemma_skip_concat(
                buf@,
                p2 as int,
                enc_bank_name(from_v),
                enc_bank_name(to) + rest,
            );
        }
    }
    let to_r = read_bank_name(buf, p3);
    if to_r.is_none() {
        return None;
    }
    let (to, p4) = to_r.unwrap();
    Some((UndoItem::Move { task, from, to }, p4))
}

/// Read the parts of a `Change` entry, after its tag.
#[verifier::rlimit(100)]
#[verifier::spinoff_prover]
fn read_undo_change(buf: &Vec<u8>, p1: usize) -> (r: Option<(UndoItem, usize)>)
    requires
        p1 <= buf@.len(),
    ensures
        r is Some ==> p1 < (r->0).1 <= buf@.len(),
        forall|fv: TaskV, tv: TaskV, ib: BankName, rest: Seq<u8>|
            #![trigger enc_task(fv) + (enc_task(tv) + (enc_bank_name(ib) + rest))]
            buf@.skip(p1 as int) == enc_task(fv) + (enc_task(tv) + (enc_bank_name(ib) + rest))
                ==> r is Some && (r->0).0@ == (UndoItemV::Change { from: fv, to: tv, in_bank: ib })
                && (r->0).1 == p1 + enc_task(fv).len() + enc_task(tv).len() + 1,
{
    let f_r = read_task(buf, p1);
    if f_r.is_none() {
        return None;
    }
    let (from_t, p2) = f_r.unwrap();
    proof {
        assert forall|fv: TaskV, tv: TaskV, ib: BankName, rest: Seq<u8>|
            #![trigger enc_task(fv) + (enc_task(tv) + (enc_bank_name(ib) + rest))]
            buf@.skip(p1 as int) == enc_task(fv) + (enc_task(tv) + (enc_bank_name(ib) + rest))
            implies from_t@ == fv && buf@.skip(p2 as int) == enc_task(tv) + (enc_bank_name(ib)
            + rest) by {
            lemma_skip_concat(
                buf@,
                p1 as int,
                enc_task(fv),
                enc_task(tv) + (enc_bank_name(ib) + rest),
            );
        }
    }
    let t_r = read_task(buf, p2);
    if t_r.is_none() {
        return None;
    }
    let (to_t, p3) = t_r.unwrap();
    proof {
        assert forall|fv: TaskV, tv: TaskV, ib: BankName, rest: Seq<u8>|
            #![trigger enc_task(fv) + (enc_task(tv) + (enc_bank_name(ib) + rest))]
            buf@.skip(p1 as int) == enc_task(fv) + (enc_task(tv) + (enc_bank_name(ib) + rest))
            implies to_t@ == tv && buf@.skip(p3 as int) == enc_bank_name(ib) + rest by {
            lemma_skip_concat(buf@, p2 as int, enc_task(tv), enc_bank_name(ib) + rest);
        }
    }
    let ib_r = read_bank_name(buf, p3);
    if ib_r.is_none() {
        return None;
    }
    let (in_bank, p4) = ib_r.unwrap();
    Some((UndoItem::Change { from: from_t, to: to_t, in_bank }, p4))
}

/// Read one undo entry.
#[verifier::rlimit(100)]
#[verifier::spinoff_prover]
fn read_undo_item(buf: &Vec<u8>, pos: usize) -> (r: Option<(UndoItem, usize)>)
    requires
        pos <= buf@.len(),
    ensures
        r is Some ==> pos < (r->0).1 <= buf@.len(),
        forall|it: UndoItemV, rest: Seq<u8>| #![trigger enc_undo_item(it) + rest]
            buf@.skip(pos as int) == enc_undo_item(it) + rest ==> r is Some && (r->0).0@ == it && (
            r->0).1 == pos + enc_undo_item(it).len(),
    decreases buf@.len() - pos, 0int,
{
    proof {
        lemma_auto_spec_u64_to_from_le_bytes();
        assert forall|it: UndoItemV, rest: Seq<u8>| #![trigger enc_undo_item(it) + rest]
            buf@.skip(pos as int) == enc_undo_item(it) + rest implies pos < buf@.len() && buf@[
            pos as int
        ] == enc_undo_item(it)[0] by {
            assert(enc_undo_item(it).len() >= 1) by {
                match it {
                    UndoItemV::Move { .. } => {},
                    UndoItemV::Change { .. } => {},
                    UndoItemV::Add { .. } => {},
                    UndoItemV::Sequence(_) => {},
                }
            }
            assert(buf@.skip(pos as int).len() == buf@.len() - pos);
            assert(buf@.skip(pos as int)[0] == buf@[pos as int]);
            assert((enc_undo_item(it) + rest)[0] == enc_undo_item(it)[0]);
        }
    }
    let b_r = read_byte(buf, pos);
    match b_r {
        None => None,
        Some((b, p1)) => {
            if b == 77 {
                proof {
                    assert forall|it: UndoItemV, rest: Seq<u8>| #![trigger enc_undo_item(it) + rest]
                        buf@.skip(pos as int) == enc_undo_item(it) + rest implies it is Move
                        && buf@.skip(p1 as int) == enc_task(it->Move_task) + (enc_bank_name(
                        it->Move_from,
                    ) + (enc_bank_name(it->Move_to) + rest)) by {
                        match it {
                            UndoItemV::Move { task, from, to } => {
                                assert(buf@.skip(pos as int) =~= seq![77u8] + (enc_task(task) + (
                                enc_bank_name(from) + (enc_bank_name(to) + rest))));
                                lemma_skip_concat(
                                    buf@,
                                    pos as int,
                                    seq![77u8],
                                    enc_task(task) + (enc_bank_name(from) + (enc_bank_name(to)
                                        + rest)),
                                );
                            },
                            UndoItemV::Change { .. } => {
                                assert(enc_undo_item(it)[0] == 67);
                            },
                            UndoItemV::Add { .. } => {
                                assert(enc_undo_item(it)[0] == 65);
                            },
                            UndoItemV::Sequence(_) => {
                                assert(enc_undo_item(it)[0] == 83);
                            },
                        }
                    }
                }
                read_undo_move(buf, p1)
            } else if b == 67 {
                proof {
                    assert forall|it: UndoItemV, rest: Seq<u8>| #![trigger enc_undo_item(it) + rest]
                        buf@.skip(pos as int) == enc_undo_item(it) + rest implies it is Change
                        && buf@.skip(p1 as int) == enc_task(it->Change_from) + (enc_task(
                        it->Change_to,
                    ) + (enc_bank_name(it->Change_in_bank) + rest)) by {
                        match it {
                            UndoItemV::Change { from, to, in_bank } => {
                                assert(buf@.skip(pos as int) =~= seq![67u8] + (enc_task(from) + (
                                enc_task(to) + (enc_bank_name(in_bank) + rest))));
                                lemma_skip_concat(
                                    buf@,
                                    pos as int,
                                    seq![67u8],
                                    enc_task(from) + (enc_task(to) + (enc_bank_name(in_bank)
                                        + rest)),
                                );
                            },
                            UndoItemV::Move { .. } => {
                                assert(enc_undo_item(it)[0] == 77);
                            },
                            UndoItemV::Add { .. } => {
                                assert(enc_undo_item(it)[0] == 65);
                            },
                            UndoItemV::Sequence(_) => {
                                assert(enc_undo_item(it)[0] == 83);
                            },
                        }
                    }
                }
                read_undo_change(buf, p1)
            } else if b == 65 {
                proof {
                    assert forall|it: UndoItemV, rest: Seq<u8>| #![trigger enc_undo_item(it) + rest]
                        buf@.skip(pos as int) == enc_undo_item(it) + rest implies it is Add
                        && buf@.skip(p1 as int) == enc_task(it->Add_new_task) + rest by {
                        match it {
                            UndoItemV::Add { new_task } => {
                                assert(buf@.skip(pos as int) =~= seq![65u8] + (enc_task(new_task)
                                    + rest));
                                lemma_skip_concat(
                                    buf@,
                                    pos as int,
                                    seq![65u8],
                                    enc_task(new_task) + rest,
                                );
                            },
                            UndoItemV::Move { .. } => {
                                assert(enc_undo_item(it)[0] == 77);
                            },
                            UndoItemV::Change { .. } => {
                                assert(enc_undo_item(it)[0] == 67);
                            },
                            UndoItemV::Sequence(_) => {
                                assert(enc_undo_item(it)[0] == 83);
                            },
                        }
                    }
                }
                let t_r = read_task(buf, p1);
                if t_r.is_none() {
                    return None;
                }
                let (new_task, p2) = t_r.unwrap();
                Some((UndoItem::Add { new_task }, p2))
            } else if b == 83 {
                proof {
                    assert forall|it: UndoItemV, rest: Seq<u8>| #![trigger enc_undo_item(it) + rest]
                        buf@.skip(pos as int) == enc_undo_item(it) + rest implies it is Sequence
                        && buf@.skip(p1 as int) == enc_u64(it->Sequence_0.len() as u64) + (
                    enc_undo_item_seq(it->Sequence_0) + rest) by {
                        match it {
                            UndoItemV::Sequence(items) => {
                                assert(buf@.skip(pos as int) =~= seq![83u8] + (enc_u64(
                                    items.len() as u64,
                                ) + (enc_undo_item_seq(items) + rest)));
                                lemma_skip_concat(
                                    buf@,
                                    pos as int,
                                    seq![83u8],
                                    enc_u64(items.len() as u64) + (enc_undo_item_seq(items)
                                        + rest),
                                );
                            },
                            UndoItemV::Move { .. } => {
                                assert(enc_undo_item(it)[0] == 77);
                            },
                            UndoItemV::Change { .. } => {
                                assert(enc_undo_item(it)[0] == 67);
                            },
                            UndoItemV::Add { .. } => {
                                assert(enc_undo_item(it)[0] == 65);
                            },
                        }
                    }
                }
                let cnt_r = read_u64(buf, p1);
                if cnt_r.is_none() {
                    return None;
                }
                let (cnt, p2) = cnt_r.unwrap();
                proof {
                    assert forall|it: UndoItemV, rest: Seq<u8>| #![trigger enc_undo_item(it) + rest]
                        buf@.skip(pos as int) == enc_undo_item(it) + rest implies it->Sequence_0.len()
                        == cnt && buf@.skip(p2 as int) == enc_undo_item_seq(it->Sequence_0)
                        + rest by {
                        lemma_skip_concat(
                            buf@,
                            p1 as int,
                            enc_u64(it->Sequence_0.len() as u64),
                            enc_undo_item_seq(it->Sequence_0) + rest,
                        );
                        lemma_enc_undo_item_seq_len(it->Sequence_0);
                        assert(buf@.len() <= usize::MAX) by {
                            broadcast use vstd::std_specs::vec::axiom_spec_len;

                            assert(vstd::std_specs::vec::spec_vec_len(buf) == buf@.len());
                        }
                        assert(it->Sequence_0.len() == it->Sequence_0.len() as u64);
                    }
                }
                match read_undo_item_seq(buf, p2, cnt) {
                    None => None,
                    Some((items, p3)) => {
                        let item = UndoItem::Sequence(items);
                        proof {
                            assert forall|it: UndoItemV, rest: Seq<u8>| #![trigger enc_undo_item(it) + rest]
                                buf@.skip(pos as int) == enc_undo_item(it) + rest implies item@
                                == it && p3 == pos + enc_undo_item(it).len() by {
                                lemma_undo_items_view(item->Sequence_0@);
                                assert(undo_items_view(item->Sequence_0@)
                                    =~= item->Sequence_0.deep_view());
                                assert(item@ == UndoItemV::Sequence(item->Sequence_0.deep_view()));
                            }
                        }
                        Some((item, p3))
                    },
                }
            } else {
                proof {
                    assert forall|it: UndoItemV, rest: Seq<u8>| #![trigger enc_undo_item(it) + rest]
                        buf@.skip(pos as int) == enc_undo_item(it) + rest implies false by {
                        match it {
                            UndoItemV::Move { .. } => {
                                assert(enc_undo_item(it)[0] == 77);
                            },
                            UndoItemV::Change { .. } => {
                                assert(enc_undo_item(it)[0] == 67);
                            },
                            UndoItemV::Add { .. } => {
                                assert(enc_undo_item(it)[0] == 65);
                            },
                            UndoItemV::Sequence(_) => {
                                assert(enc_undo_item(it)[0] == 83);
                            },
                        }
                    }
                }
                None
            }
        },
    }
}

/// Read `count` undo entries, one after the other.
fn read_undo_item_seq(buf: &Vec<u8>, pos: usize, count: u64) -> (r: Option<(Vec<UndoItem>, usize)>)
    requires
        pos <= buf@.len(),
    ensures
        r is Some ==> pos <= (r->0).1 <= buf@.len(),
        forall|s: Seq<UndoItemV>, rest: Seq<u8>| #![trigger enc_undo_item_seq(s) + rest]
            s.len() == count && buf@.skip(pos as int) == enc_undo_item_seq(s) + rest ==> r is Some
                && (r->0).0.deep_view() == s && (r->0).1 == pos + enc_undo_item_seq(s).len(),
    decreases buf@.len() - pos, count,
{
    if count == 0 {
        let v: Vec<UndoItem> = Vec::new();
        proof {
            assert forall|s: Seq<UndoItemV>, rest: Seq<u8>| #![trigger enc_undo_item_seq(s) + rest]
                s.len() == count && buf@.skip(pos as int) == enc_undo_item_seq(s) + rest implies
                v.deep_view() == s && enc_undo_item_seq(s).len() == 0 by {
                assert(v.deep_view() =~= s);
            }
        }
        return Some((v, pos));
    }
    proof {
        assert forall|s: Seq<UndoItemV>, rest: Seq<u8>| #![trigger enc_undo_item_seq(s) + rest]
            s.len() == count && buf@.skip(pos as int) == enc_undo_item_seq(s) + rest implies
            buf@.skip(pos as int) == enc_undo_item(s[0]) + (enc_undo_item_seq(s.drop_first())
                + rest) by {
            assert(buf@.skip(pos as int) =~= enc_undo_item(s[0]) + (enc_undo_item_seq(
                s.drop_first(),
            ) + rest));
        }
    }
    let first = read_undo_item(buf, pos);
    match first {
        None => None,
        Some((i0, p1)) => {
            proof {
                assert forall|s: Seq<UndoItemV>, rest: Seq<u8>| #![trigger enc_undo_item_seq(s) + rest]
                    s.len() == count && buf@.skip(pos as int) == enc_undo_item_seq(s) + rest
                    implies s.drop_first().len() == count - 1 && buf@.skip(p1 as int)
                    == enc_undo_item_seq(s.drop_first()) + rest by {
                    lemma_skip_concat(
                        buf@,
                        pos as int,
                        enc_undo_item(s[0]),
                        enc_undo_item_seq(s.drop_first()) + rest,
                    );
                }
            }
            let tail = read_undo_item_seq(buf, p1, count - 1);
            match tail {
                None => None,
                Some((mut v, p2)) => {
                    let ghost tail_dv = v.deep_view();
                    v.insert(0, i0);
                    proof {
                        assert forall|s: Seq<UndoItemV>, rest: Seq<u8>| #![trigger enc_undo_item_seq(s) + rest]
                            s.len() == count && buf@.skip(pos as int) == enc_undo_item_seq(s)
                                + rest implies v.deep_view() == s && p2 == pos + enc_undo_item_seq(
                            s,
                        ).len() by {
                            assert(buf@.skip(pos as int) =~= enc_undo_item(s[0]) + (
                            enc_undo_item_seq(s.drop_first()) + rest));
                            lemma_skip_concat(
                                buf@,
                                pos as int,
                                enc_undo_item(s[0]),
                                enc_undo_item_seq(s.drop_first()) + rest,
                            );
                            assert(i0@ == s[0]);
                            assert(tail_dv == s.drop_first());
                            assert(v.deep_view() =~= s) by {
                                assert(v@.len() == tail_dv.len() + 1);
                                assert(v@[0] == i0);
                                assert(forall|i: int|
                                    1 <= i < v@.len() ==> #[trigger] v.deep_view()[i] == tail_dv[i
                                        - 1]);
                            }
                        }
                    }
                    Some((v, p2))
                },
            }
        },
    }
}

/// Decode an undo-log document, in full: trailing bytes are rejected.
pub fn decode_undo_log(buf: &Vec<u8>) -> (r: Option<UndoBank>)
    ensures
        forall|s: Seq<UndoItemV>| #![trigger enc_undo_log(s)]
            buf@ == enc_undo_log(s) ==> r is Some && r->0@ == s,
{
    proof {
        lemma_auto_spec_u64_to_from_le_bytes();
        assert forall|s: Seq<UndoItemV>| #![trigger enc_undo_log(s)]
            buf@ == enc_undo_log(s) implies buf@.skip(0) == seq![85u8] + (enc_u64(s.len() as u64)
            + (enc_undo_item_seq(s) + Seq::<u8>::empty())) by {
            assert(buf@.skip(0) =~= seq![85u8] + (enc_u64(s.len() as u64) + (enc_undo_item_seq(s)
                + Seq::<u8>::empty())));
        }
    }
    let b_r = read_byte(buf, 0);
    match b_r {
        None => None,
        Some((b, _p)) => {
            if b != 85 {
                return None;
            }
            let cnt_r = read_u64(buf, 1);
            proof {
                assert forall|s: Seq<UndoItemV>| #![trigger enc_undo_log(s)]
                    buf@ == enc_undo_log(s) implies buf@.skip(1) == enc_u64(s.len() as u64) + (
                enc_undo_item_seq(s) + Seq::<u8>::empty()) by {
                    lemma_skip_concat(
                        buf@,
                        0,
                        seq![85u8],
                        enc_u64(s.len() as u64) + (enc_undo_item_seq(s) + Seq::<u8>::empty()),
                    );
                }
            }
            match cnt_r {
                None => None,
                Some((cnt, p1)) => {
                    proof {
                        assert forall|s: Seq<UndoItemV>| #![trigger enc_undo_log(s)]
                            buf@ == enc_undo_log(s) implies s.len() == cnt && buf@.skip(p1 as int)
                            == enc_undo_item_seq(s) + Seq::<u8>::empty() by {
                            lemma_skip_concat(
                                buf@,
                                1,
                                enc_u64(s.len() as u64),
                                enc_undo_item_seq(s) + Seq::<u8>::empty(),
                            );
                            lemma_enc_undo_item_seq_len(s);
                            assert(buf@.len() <= usize::MAX) by {
                                broadcast use vstd::std_specs::vec::axiom_spec_len;

                                assert(vstd::std_specs::vec::spec_vec_len(buf) == buf@.len());
                            }
                            assert(s.len() == s.len() as u64);
                        }
                    }
                    match read_undo_item_seq(buf, p1, cnt) {
                        None => None,
                        Some((undoitems, p2)) => {
                            if p2 != buf.len() {
                                proof {
                                    assert forall|s: Seq<UndoItemV>| #![trigger enc_undo_log(s)]
                                        buf@ == enc_undo_log(s) implies false by {
                                        assert(p2 == p1 + enc_undo_item_seq(s).len());
                                    }
                                }
                                return None;
                            }
                            Some(UndoBank { undoitems })
                        },
                    }
                },
            }
        },
    }
}

/// Decode a last-pointer document, in full: trailing bytes are rejected.
pub fn decode_last(buf: &Vec<u8>) -> (r: Option<Last>)
    ensures
        forall|o: Option<Seq<char>>| #![trigger enc_last(o)]
            buf@ == enc_last(o) ==> r is Some && r->0@ == o,
{
    proof {
        assert forall|o: Option<Seq<char>>| #![trigger enc_last(o)]
            buf@ == enc_last(o) implies buf@.skip(0) == seq![76u8] + (enc_opt_str(o)
            + Seq::<u8>::empty()) by {
            assert(buf@.skip(0) =~= seq![76u8] + (enc_opt_str(o) + Seq::<u8>::empty()));
        }
    }
    let b_r = read_byte(buf, 0);
    match b_r {
        None => None,
        Some((b, _p)) => {
            if b != 76 {
                return None;
            }
            proof {
                assert forall|o: Option<Seq<char>>| #![trigger enc_last(o)]
                    buf@ == enc_last(o) implies buf@.skip(1) == enc_opt_str(o)
                    + Seq::<u8>::empty() by {
                    lemma_skip_concat(buf@, 0, seq![76u8], enc_opt_str(o) + Seq::<u8>::empty());
                }
            }
            match read_opt_str(buf, 1) {
                None => None,
                Some((os, p1)) => {
                    if p1 != buf.len() {
                        proof {
                            assert forall|o: Option<Seq<char>>| #![trigger enc_last(o)]
                                buf@ == enc_last(o) implies false by {
                                assert(p1 == 1 + enc_opt_str(o).len());
                            }
                        }
                        return None;
                    }
                    Some(Last { last: os })
                },
            }
        },
    }
}

/// Encode a last-pointer document.
pub fn encode_last(last: &Last) -> (r: Vec<u8>)
    ensures
        r@ == enc_last(last@),
{
    let mut out: Vec<u8> = Vec::new();
    out.push(76u8);
    match &last.last {
        None => out.push(0u8),
        Some(id) => {
            out.push(1u8);
            put_str(&mut out, id.as_str());
        },
    }
    proof {
        assert(out@ =~= enc_last(last@));
    }
    out
}

/// Encoding a bank and decoding it back yields an equal structure.
pub fn recode_bank(bank: &Bank) -> (r: Option<Bank>)
    ensures
        r is Some && r->0@ == bank@,
{
    decode_bank(&encode_bank(bank))
}

/// Encoding an undo log and decoding it back yields an equal structure.
pub fn recode_undo_log(log: &UndoBank) -> (r: Option<UndoBank>)
    ensures
        r is Some && r->0@ == log@,
{
    decode_undo_log(&encode_undo_log(log))
}

/// Encoding a last-pointer and decoding it back yields an equal structure.
pub fn recode_last(last: &Last) -> (r: Option<Last>)
    ensures
        r is Some && r->0@ == last@,
{
    decode_last(&encode_last(last))
}

} // verus!
