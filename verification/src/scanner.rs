//! Registration of candidate paths: every path with the target container
//! extension gets a ledger entry with the unresolved default, idempotently;
//! every other path is left alone.
use vstd::prelude::*;

verus! {

use crate::codec::key_bytes_of;
use crate::entry::EntryState;
use crate::entry::encode_state;
use crate::entry::value_of;
use crate::ledger::Ledger;
use crate::ledger::StorageError;
use crate::text::chars_of;
use vstd::string::StrSliceExecFns;
use vstd::utf8::encode_utf8;

/// A path separator. Both conventions count on every platform, by intent:
/// the analyzer is a Windows tool and the scan may be handed either style
/// of path, so a backslash is always read as a separator — a POSIX file
/// whose name itself contains `\` is deliberately not a candidate.
pub open spec fn is_sep(c: char) -> bool {
    c == '/' || c == '\\'
}

/// A candidate file: the path ends in `.mxf`, case-sensitively, and that
/// suffix is a real extension — the file name has something before the dot.
pub open spec fn is_candidate(p: Seq<char>) -> bool {
    &&& p.len() >= 5
    &&& p[p.len() - 4] == '.'
    &&& p[p.len() - 3] == 'm'
    &&& p[p.len() - 2] == 'x'
    &&& p[p.len() - 1] == 'f'
    &&& !is_sep(p[p.len() - 5])
}

pub fn is_candidate_path(p: &Vec<char>) -> (b: bool)
    ensures
        b == is_candidate(p@),
{
    let n = p.len();
    n >= 5 && p[n - 4] == '.' && p[n - 3] == 'm' && p[n - 2] == 'x' && p[n - 1] == 'f' && p[n
        - 5] != '/' && p[n - 5] != '\\'
}

/// One path's effect on the ledger: a candidate not yet present is added
/// with the unresolved default; anything else changes nothing.
pub open spec fn register_step(m: Map<Seq<u8>, Seq<u8>>, p: Seq<char>) -> Map<Seq<u8>, Seq<u8>> {
    if is_candidate(p) && !m.contains_key(key_bytes_of(p)) {
        m.insert(key_bytes_of(p), value_of(EntryState::Unresolved))
    } else {
        m
    }
}

/// The ledger after registering each path in order.
pub open spec fn register_all(m: Map<Seq<u8>, Seq<u8>>, paths: Seq<Seq<char>>) -> Map<
    Seq<u8>,
    Seq<u8>,
>
    decreases paths.len(),
{
    if paths.len() == 0 {
        m
    } else {
        register_all(register_step(m, paths[0]), paths.drop_first())
    }
}

pub proof fn lemma_register_all_snoc(m: Map<Seq<u8>, Seq<u8>>, paths: Seq<Seq<char>>, p: Seq<char>)
    ensures
        register_all(m, paths.push(p)) == register_step(register_all(m, paths), p),
    decreases paths.len(),
{
    reveal_with_fuel(register_all, 3);
    if paths.len() == 0 {
        assert(paths.push(p)[0] == p);
        assert(paths.push(p).drop_first() =~~= Seq::<Seq<char>>::empty());
    } else {
        assert(paths.push(p)[0] == paths[0]);
        assert(paths.push(p).drop_first() =~~= paths.drop_first().push(p));
        lemma_register_all_snoc(register_step(m, paths[0]), paths.drop_first(), p);
    }
}

/// Registration never removes or changes an existing entry.
pub proof fn lemma_register_all_preserves(
    m: Map<Seq<u8>, Seq<u8>>,
    paths: Seq<Seq<char>>,
    k: Seq<u8>,
)
    requires
        m.contains_key(k),
    ensures
        register_all(m, paths).contains_key(k),
        register_all(m, paths)[k] == m[k],
    decreases paths.len(),
{
    if paths.len() > 0 {
        lemma_register_all_preserves(register_step(m, paths[0]), paths.drop_first(), k);
    }
}

/// After registration, every candidate's key is present.
pub proof fn lemma_register_all_registers(m: Map<Seq<u8>, Seq<u8>>, paths: Seq<Seq<char>>, i: int)
    requires
        0 <= i < paths.len(),
        is_candidate(paths[i]),
    ensures
        register_all(m, paths).contains_key(key_bytes_of(paths[i])),
    decreases paths.len(),
{
    let m1 = register_step(m, paths[0]);
    if i == 0 {
        lemma_register_all_preserves(m1, paths.drop_first(), key_bytes_of(paths[0]));
    } else {
        assert(paths.drop_first()[i - 1] == paths[i]);
        lemma_register_all_registers(m1, paths.drop_first(), i - 1);
    }
}

/// Registering paths whose candidates are all present already is a no-op.
pub proof fn lemma_register_all_id(m: Map<Seq<u8>, Seq<u8>>, paths: Seq<Seq<char>>)
    requires
        forall|i: int|
            0 <= i < paths.len() && is_candidate(#[trigger] paths[i]) ==> m.contains_key(
                key_bytes_of(paths[i]),
            ),
    ensures
        register_all(m, paths) == m,
    decreases paths.len(),
{
    if paths.len() > 0 {
        assert(register_step(m, paths[0]) == m);
        assert(forall|i: int|
            0 <= i < paths.drop_first().len() && is_candidate(#[trigger] paths.drop_first()[i])
                ==> m.contains_key(key_bytes_of(paths.drop_first()[i])));
        lemma_register_all_id(m, paths.drop_first());
    }
}

/// Scanning the same paths a second time leaves the ledger exactly as the
/// first scan left it: no entry is added, removed or changed.
pub proof fn lemma_register_all_idempotent(m: Map<Seq<u8>, Seq<u8>>, paths: Seq<Seq<char>>)
    ensures
        register_all(register_all(m, paths), paths) == register_all(m, paths),
{
    let m1 = register_all(m, paths);
    assert forall|i: int|
        0 <= i < paths.len() && is_candidate(#[trigger] paths[i]) implies m1.contains_key(
        key_bytes_of(paths[i]),
    ) by {
        lemma_register_all_registers(m, paths, i);
    }
    lemma_register_all_id(m1, paths);
}

/// A path without the candidate extension is never registered: every key
/// that registration adds is the key of some candidate among the paths.
pub proof fn lemma_unknown_extension_never_registered(
    m: Map<Seq<u8>, Seq<u8>>,
    paths: Seq<Seq<char>>,
    k: Seq<u8>,
)
    requires
        register_all(m, paths).contains_key(k),
        !m.contains_key(k),
    ensures
        exists|i: int|
            0 <= i < paths.len() && is_candidate(#[trigger] paths[i]) && k == key_bytes_of(
                paths[i],
            ),
    decreases paths.len(),
{
    let m1 = register_step(m, paths[0]);
    if m1.contains_key(k) && !m.contains_key(k) {
        assert(is_candidate(paths[0]) && k == key_bytes_of(paths[0]));
    } else {
        lemma_unknown_extension_never_registered(m1, paths.drop_first(), k);
        let j = choose|j: int|
            0 <= j < paths.drop_first().len() && is_candidate(#[trigger] paths.drop_first()[j])
                && k == key_bytes_of(paths.drop_first()[j]);
        assert(paths[j + 1] == paths.drop_first()[j]);
    }
}

/// Register one discovered path: a candidate gets an unresolved entry
/// unless one is present; any other path leaves the ledger unchanged.
/// Returns whether a new entry was added. A path without the candidate
/// extension never touches the store, so for it success is owed; and even
/// a failing call either changes nothing or adds the absent candidate's
/// default — an existing entry always survives.
pub fn register_candidate(ledger: &mut Ledger, path: &str) -> (r: Result<bool, StorageError>)
    requires
        encode_utf8(path@).len() <= usize::MAX as nat / 8,
    ensures
        r is Ok ==> final(ledger)@ == register_step(old(ledger)@, path@),
        r matches Ok(added) ==> added == (is_candidate(path@) && !old(ledger)@.contains_key(
            key_bytes_of(path@),
        )),
        !is_candidate(path@) ==> (r matches Ok(added) && added == false),
        final(ledger)@ == old(ledger)@ || (is_candidate(path@) && !old(ledger)@.contains_key(
            key_bytes_of(path@),
        ) && final(ledger)@ == old(ledger)@.insert(
            key_bytes_of(path@),
            value_of(EntryState::Unresolved),
        )),
{
    let pc = chars_of(path);
    if !is_candidate_path(&pc) {
        return Ok(false);
    }
    let key = crate::codec::encode(path);
    let key_bytes = key.as_str().as_bytes_vec();
    let default_value = encode_state(EntryState::Unresolved);
    ledger.register_if_absent(&key_bytes, &default_value)
}

/// The ledger after registering each path whose bit in `applied` is set;
/// a cleared bit stands for a registration that a storage error swallowed.
pub open spec fn register_all_outcomes(
    m: Map<Seq<u8>, Seq<u8>>,
    paths: Seq<Seq<char>>,
    applied: Seq<bool>,
) -> Map<Seq<u8>, Seq<u8>>
    recommends
        applied.len() == paths.len(),
    decreases paths.len(),
{
    if paths.len() == 0 {
        m
    } else {
        let m1 = if applied[0] {
            register_step(m, paths[0])
        } else {
            m
        };
        register_all_outcomes(m1, paths.drop_first(), applied.drop_first())
    }
}

proof fn lemma_register_all_outcomes_snoc(
    m: Map<Seq<u8>, Seq<u8>>,
    paths: Seq<Seq<char>>,
    applied: Seq<bool>,
    p: Seq<char>,
    b: bool,
)
    requires
        applied.len() == paths.len(),
    ensures
        register_all_outcomes(m, paths.push(p), applied.push(b)) == if b {
            register_step(register_all_outcomes(m, paths, applied), p)
        } else {
            register_all_outcomes(m, paths, applied)
        },
    decreases paths.len(),
{
    reveal_with_fuel(register_all_outcomes, 3);
    if paths.len() == 0 {
        assert(paths.push(p)[0] == p);
        assert(applied.push(b)[0] == b);
        assert(paths.push(p).drop_first() =~~= Seq::<Seq<char>>::empty());
        assert(applied.push(b).drop_first() =~= Seq::<bool>::empty());
    } else {
        assert(paths.push(p)[0] == paths[0]);
        assert(applied.push(b)[0] == applied[0]);
        assert(paths.push(p).drop_first() =~~= paths.drop_first().push(p));
        assert(applied.push(b).drop_first() =~= applied.drop_first().push(b));
        let m1 = if applied[0] {
            register_step(m, paths[0])
        } else {
            m
        };
        lemma_register_all_outcomes_snoc(m1, paths.drop_first(), applied.drop_first(), p, b);
    }
}

proof fn lemma_count_true_snoc(s: Seq<bool>, b: bool)
    ensures
        crate::pipeline::count_true(s.push(b)) == crate::pipeline::count_true(s) + if b {
            1int
        } else {
            0int
        },
    decreases s.len(),
{
    reveal_with_fuel(crate::pipeline::count_true, 3);
    if s.len() == 0 {
        assert(s.push(b)[0] == b);
        assert(s.push(b).drop_first() =~= Seq::<bool>::empty());
    } else {
        assert(s.push(b)[0] == s[0]);
        assert(s.push(b).drop_first() =~= s.drop_first().push(b));
        lemma_count_true_snoc(s.drop_first(), b);
    }
}

/// Register every discovered path in order. Returns how many entries were
/// added and how many paths failed with a storage error (those are skipped,
/// per-path failure is not fatal to the scan). The outcome is accounted for
/// exactly: some set of paths took effect, every path left out is a
/// candidate whose registration erred — at most as many as the reported
/// failures — and existing entries always survive. Where no path is a
/// candidate the store is never consulted, so no failure can be reported.
pub fn register_paths(ledger: &mut Ledger, paths: &Vec<String>) -> (r: (usize, usize))
    requires
        forall|i: int|
            0 <= i < paths@.len() ==> (#[trigger] encode_utf8(paths@[i]@)).len() <= usize::MAX
                as nat / 8,
    ensures
        r.1 == 0 ==> final(ledger)@ == register_all(old(ledger)@, paths.deep_view()),
        forall|k: Seq<u8>|
            final(ledger)@.contains_key(k) && !old(ledger)@.contains_key(k)
                ==> exists|i: int|
                0 <= i < paths@.len() && is_candidate(#[trigger] paths@[i]@) && k == key_bytes_of(
                    paths@[i]@,
                ),
        forall|k: Seq<u8>| #[trigger]
            old(ledger)@.contains_key(k) ==> final(ledger)@.contains_key(k) && final(ledger)@[k]
                == old(ledger)@[k],
        (forall|i: int| 0 <= i < paths@.len() ==> !(#[trigger] is_candidate(paths@[i]@))) ==> r.1
            == 0,
        exists|applied: Seq<bool>|
            #![trigger register_all_outcomes(old(ledger)@, paths.deep_view(), applied)]
            applied.len() == paths@.len() && final(ledger)@ == register_all_outcomes(
                old(ledger)@,
                paths.deep_view(),
                applied,
            ) && paths@.len() - crate::pipeline::count_true(applied) <= r.1 && (forall|i: int|
                0 <= i < applied.len() && !(#[trigger] applied[i]) ==> is_candidate(
                    paths.deep_view()[i],
                )),
{
    let ghost orig = ledger@;
    let mut added: usize = 0;
    let mut failed: usize = 0;
    let mut i: usize = 0;
    let ghost mut applied: Seq<bool> = Seq::empty();
    proof {
        assert(paths.deep_view().take(0) =~~= Seq::<Seq<char>>::empty());
    }
    while i < paths.len()
        invariant
            0 <= i <= paths@.len(),
            added <= i,
            failed <= i,
            applied.len() == i,
            forall|j: int|
                0 <= j < paths@.len() ==> (#[trigger] encode_utf8(paths@[j]@)).len() <= usize::MAX
                    as nat / 8,
            failed == 0 ==> ledger@ == register_all(orig, paths.deep_view().take(i as int)),
            ledger@ == register_all_outcomes(
                orig,
                paths.deep_view().take(i as int),
                applied,
            ),
            i - crate::pipeline::count_true(applied) <= failed,
            0 <= crate::pipeline::count_true(applied) <= i,
            forall|j: int|
                0 <= j < i && !(#[trigger] applied[j]) ==> is_candidate(paths.deep_view()[j]),
            forall|k: Seq<u8>|
                ledger@.contains_key(k) && !orig.contains_key(k)
                    ==> exists|j: int|
                    0 <= j < i && is_candidate(#[trigger] paths@[j]@) && k == key_bytes_of(
                        paths@[j]@,
                    ),
            forall|k: Seq<u8>| #[trigger]
                orig.contains_key(k) ==> ledger@.contains_key(k) && ledger@[k] == orig[k],
            (forall|j: int| 0 <= j < i ==> !(#[trigger] is_candidate(paths@[j]@))) ==> failed == 0,
        decreases paths@.len() - i,
    {
        let ghost before = ledger@;
        let p = &paths[i];
        let outcome = register_candidate(ledger, p.as_str());
        let ghost bit = (ledger@ == register_step(before, paths@[i as int]@));
        proof {
            lemma_register_all_outcomes_snoc(
                orig,
                paths.deep_view().take(i as int),
                applied,
                paths@[i as int]@,
                bit,
            );
            assert(paths.deep_view().take(i + 1) =~~= paths.deep_view().take(i as int).push(
                paths@[i as int]@,
            ));
            lemma_count_true_snoc(applied, bit);
            if !bit {
                assert(ledger@ == before);
                assert(is_candidate(paths@[i as int]@));
            }
            applied = applied.push(bit);
        }
        match outcome {
            Ok(true) => {
                added = added + 1;
            },
            Ok(false) => {},
            Err(e) => {
                let _ = e;
                failed = failed + 1;
            },
        }
        proof {
            if failed == 0 {
                lemma_register_all_snoc(orig, paths.deep_view().take(i as int), paths@[i as int]@);
            }
            assert(outcome is Err ==> is_candidate(paths@[i as int]@));
            assert forall|k: Seq<u8>| #[trigger]
                orig.contains_key(k) implies ledger@.contains_key(k) && ledger@[k] == orig[k] by {
                assert(before.contains_key(k) && before[k] == orig[k]);
                if !(ledger@ == before) {
                    assert(!before.contains_key(key_bytes_of(paths@[i as int]@)));
                }
            }
            assert forall|k: Seq<u8>|
                ledger@.contains_key(k) && !orig.contains_key(k) implies exists|j: int|
                0 <= j < i + 1 && is_candidate(#[trigger] paths@[j]@) && k == key_bytes_of(
                    paths@[j]@,
                ) by {
                if before.contains_key(k) {
                    let j = choose|j: int|
                        0 <= j < i && is_candidate(#[trigger] paths@[j]@) && k == key_bytes_of(
                            paths@[j]@,
                        );
                    assert(0 <= j < i + 1 && is_candidate(paths@[j]@) && k == key_bytes_of(
                        paths@[j]@,
                    ));
                } else {
                    assert(is_candidate(paths@[i as int]@) && k == key_bytes_of(paths@[i as int]@));
                }
            }
        }
        i += 1;
    }
    proof {
        assert(paths.deep_view().take(paths@.len() as int) =~~= paths.deep_view());
        assert(applied.len() == paths@.len() && ledger@ == register_all_outcomes(
            orig,
            paths.deep_view(),
            applied,
        ) && paths@.len() - crate::pipeline::count_true(applied) <= failed && (forall|j: int|
            0 <= j < applied.len() && !(#[trigger] applied[j]) ==> is_candidate(
                paths.deep_view()[j],
            )));
    }
    (added, failed)
}

} // verus!
