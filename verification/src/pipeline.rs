//! The resolution pass over the ledger: pick out the entries still
//! unresolved, decode their paths for the analyzer, and write outcomes
//! back. The analyzer runs and the streams are pumped outside the library;
//! every decision about what to run and what to record is made here.
use vstd::prelude::*;

verus! {

use crate::codec::key_bytes_of;
use crate::codec::key_of;
use crate::entry::EntryState;
use crate::entry::encode_state;
use crate::entry::parse_state;
use crate::entry::state_of;
use crate::entry::value_of;
use crate::ledger::Ledger;
use crate::ledger::StorageError;
use vstd::utf8::decode_utf8;
use vstd::utf8::encode_utf8;
use vstd::utf8::valid_utf8;

broadcast use vstd::utf8::encode_utf8_valid_utf8, vstd::utf8::encode_utf8_decode_utf8, vstd::utf8::decode_utf8_encode_utf8;

/// One file still to be run through the analyzer: its ledger key and its
/// decoded path.
pub struct WorkItem {
    pub key: Vec<u8>,
    pub path: String,
}

/// Whether stored key bytes are the key of some path.
pub open spec fn decodable_key(k: Seq<u8>) -> bool {
    exists|p: Seq<char>| k == key_bytes_of(p)
}

/// The path whose key the stored bytes are.
pub open spec fn decoded_path(k: Seq<u8>) -> Seq<char> {
    choose|p: Seq<char>| k == key_bytes_of(p)
}

/// The ledger pairs as sequences of bytes.
pub open spec fn pairs_view(es: Seq<(Vec<u8>, Vec<u8>)>) -> Seq<(Seq<u8>, Seq<u8>)> {
    Seq::new(es.len(), |i: int| (es[i].0@, es[i].1@))
}

/// The work items as key bytes and path text.
pub open spec fn items_view(ws: Seq<WorkItem>) -> Seq<(Seq<u8>, Seq<char>)> {
    Seq::new(ws.len(), |i: int| (ws[i].key@, ws[i].path@))
}

/// The work of one pass: exactly the entries whose value is the unresolved
/// default and whose key decodes to a path, in ledger order. An entry
/// already resolved is never planned, so the analyzer is never re-invoked
/// for it; a malformed entry is skipped.
pub open spec fn planned(entries: Seq<(Seq<u8>, Seq<u8>)>) -> Seq<(Seq<u8>, Seq<char>)>
    decreases entries.len(),
{
    if entries.len() == 0 {
        seq![]
    } else {
        let kv = entries[0];
        let rest = planned(entries.drop_first());
        if state_of(kv.1) == Some(EntryState::Unresolved) && decodable_key(kv.0) {
            seq![(kv.0, decoded_path(kv.0))] + rest
        } else {
            rest
        }
    }
}

/// Decide whether one ledger entry needs the analyzer, and with which path.
pub fn plan_entry(key: &Vec<u8>, value: &Vec<u8>) -> (r: Option<WorkItem>)
    requires
        key@.len() <= usize::MAX as nat / 8,
    ensures
        match r {
            Some(item) => state_of(value@) == Some(EntryState::Unresolved) && decodable_key(key@)
                && item.key@ == key@ && item.path@ == decoded_path(key@),
            None => !(state_of(value@) == Some(EntryState::Unresolved) && decodable_key(key@)),
        },
{
    match parse_state(value) {
        Some(EntryState::Unresolved) => {},
        _ => {
            return None;
        },
    }
    match crate::text::utf8_to_string(key) {
        None => {
            proof {
                assert forall|p: Seq<char>| key@ != key_bytes_of(p) by {
                    if key@ == key_bytes_of(p) {
                        assert(valid_utf8(encode_utf8(key_of(p))));
                    }
                }
            }
            None
        },
        Some(ks) => {
            proof {
                assert(encode_utf8(ks@) == key@);
            }
            match crate::codec::decode(ks.as_str()) {
                Err(e) => {
                    let _ = e;
                    proof {
                        assert forall|p: Seq<char>| key@ != key_bytes_of(p) by {
                            if key@ == key_bytes_of(p) {
                                assert(decode_utf8(encode_utf8(key_of(p))) == key_of(p));
                                assert(ks@ == key_of(p));
                            }
                        }
                    }
                    None
                },
                Ok(path) => {
                    proof {
                        assert(ks@ == key_of(path@));
                        assert(encode_utf8(ks@) == key@);
                        assert(key@ == key_bytes_of(path@));
                        let p0 = decoded_path(key@);
                        assert(key@ == key_bytes_of(p0));
                        assert(decode_utf8(encode_utf8(key_of(p0))) == key_of(p0));
                        assert(ks@ == key_of(p0));
                        assert(path@ == p0);
                    }
                    let item = WorkItem { key: clone_bytes(key), path };
                    Some(item)
                },
            }
        },
    }
}

/// A copy of a byte vector.
pub fn clone_bytes(v: &Vec<u8>) -> (r: Vec<u8>)
    ensures
        r@ == v@,
{
    let mut r: Vec<u8> = Vec::new();
    let mut k: usize = 0;
    while k < v.len()
        invariant
            0 <= k <= v@.len(),
            r@ == v@.subrange(0, k as int),
        decreases v@.len() - k,
    {
        r.push(v[k]);
        assert(r@ =~= v@.subrange(0, (k + 1) as int));
        k += 1;
    }
    assert(r@ =~= v@);
    r
}

/// Plan one whole pass over the ledger's entries.
pub fn plan_pass(entries: &Vec<(Vec<u8>, Vec<u8>)>) -> (w: Vec<WorkItem>)
    requires
        forall|i: int|
            0 <= i < entries@.len() ==> (#[trigger] entries@[i].0)@.len() <= usize::MAX as nat / 8,
    ensures
        items_view(w@) == planned(pairs_view(entries@)),
{
    let ghost full = pairs_view(entries@);
    let mut w: Vec<WorkItem> = Vec::new();
    let mut i: usize = 0;
    proof {
        assert(full.skip(0) =~~= full);
    }
    while i < entries.len()
        invariant
            0 <= i <= entries@.len(),
            full == pairs_view(entries@),
            forall|j: int|
                0 <= j < entries@.len() ==> (#[trigger] entries@[j].0)@.len() <= usize::MAX as nat
                    / 8,
            planned(full) == items_view(w@) + planned(full.skip(i as int)),
        decreases entries@.len() - i,
    {
        let ghost before = items_view(w@);
        let entry = &entries[i];
        proof {
            assert(full.skip(i as int)[0] == (entries@[i as int].0@, entries@[i as int].1@));
            assert(full.skip(i as int).drop_first() =~~= full.skip(i as int + 1));
        }
        match plan_entry(&entry.0, &entry.1) {
            Some(item) => {
                w.push(item);
                proof {
                    assert(items_view(w@) =~~= before.push((entries@[i as int].0@, decoded_path(
                        entries@[i as int].0@,
                    ))));
                    assert(items_view(w@) + planned(full.skip(i as int + 1)) =~~= before + (seq![
                        (entries@[i as int].0@, decoded_path(entries@[i as int].0@)),
                    ] + planned(full.skip(i as int + 1))));
                }
            },
            None => {},
        }
        i += 1;
    }
    proof {
        assert(planned(full.skip(entries@.len() as int)) =~~= Seq::<(Seq<u8>, Seq<char>)>::empty());
        assert(items_view(w@) + Seq::<(Seq<u8>, Seq<char>)>::empty() =~~= items_view(w@));
    }
    w
}

/// Record one file's outcome: the entry becomes resolved, with the marker
/// found or not.
pub fn record_result(ledger: &mut Ledger, key: &Vec<u8>, found: bool) -> (r: Result<
    (),
    StorageError,
>)
    ensures
        r is Ok ==> final(ledger)@ == old(ledger)@.insert(
            key@,
            value_of(
                if found {
                    EntryState::MatchFound
                } else {
                    EntryState::NoMatch
                },
            ),
        ),
        r is Err ==> final(ledger)@ == old(ledger)@ || final(ledger)@ == old(ledger)@.insert(
            key@,
            value_of(
                if found {
                    EntryState::MatchFound
                } else {
                    EntryState::NoMatch
                },
            ),
        ),
{
    let st = if found {
        EntryState::MatchFound
    } else {
        EntryState::NoMatch
    };
    let v = encode_state(st);
    ledger.set(key, &v)
}

/// How many of a pass's outcomes were matches.
pub open spec fn count_true(s: Seq<bool>) -> int
    decreases s.len(),
{
    if s.len() == 0 {
        0
    } else {
        (if s[0] {
            1int
        } else {
            0int
        }) + count_true(s.drop_first())
    }
}

proof fn lemma_count_true_bounds(s: Seq<bool>)
    ensures
        0 <= count_true(s) <= s.len(),
    decreases s.len(),
{
    if s.len() > 0 {
        lemma_count_true_bounds(s.drop_first());
    }
}

/// The end-of-run summary: how many entries were processed and how many of
/// them had the marker.
pub struct RunSummary {
    pub processed: usize,
    pub matched: usize,
}

pub fn summarize(results: &Vec<bool>) -> (s: RunSummary)
    ensures
        s.processed == results@.len(),
        s.matched == count_true(results@),
{
    let mut matched: usize = 0;
    let mut i: usize = 0;
    proof {
        assert(results@.skip(0) =~= results@);
    }
    while i < results.len()
        invariant
            0 <= i <= results@.len(),
            matched <= i,
            matched + count_true(results@.skip(i as int)) == count_true(results@),
        decreases results@.len() - i,
    {
        proof {
            assert(results@.skip(i as int)[0] == results@[i as int]);
            assert(results@.skip(i as int).drop_first() =~= results@.skip(i as int + 1));
            lemma_count_true_bounds(results@.skip(i as int + 1));
        }
        if results[i] {
            matched = matched + 1;
        }
        i += 1;
    }
    proof {
        assert(count_true(results@.skip(results@.len() as int)) == 0);
    }
    RunSummary { processed: results.len(), matched }
}

} // verus!
