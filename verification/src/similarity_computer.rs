//! The similarity stage: compare the triggering handle's signature against
//! every other stored signature and append the resulting rows.

use vstd::prelude::*;
use crate::data_model::{SigEntry, Signature, Similarity};
use crate::helpers::GenericError;
use crate::similarity::{
    canonical_pair, compute_similarity_handles, compute_similarity_matches, spec_matching, str_eq,
};
use crate::store::MemStore;
use crate::text::{fold_handle, lower_of};

verus! {

/// The signatures whose handle differs from `h`, in storage order.
pub open spec fn sigs_other_than(sigs: Seq<Signature>, h: Seq<char>) -> Seq<Signature>
    decreases sigs.len(),
{
    if sigs.len() == 0 {
        Seq::empty()
    } else {
        let rest = sigs_other_than(sigs.drop_last(), h);
        if sigs.last().user_handle@ == h {
            rest
        } else {
            rest.push(sigs.last())
        }
    }
}

/// Whether `rows` holds, in order, one similarity row for each signature of
/// `others` compared against the entries `msig` of handle `mine`.
pub open spec fn sim_rows_ok(
    rows: Seq<Similarity>,
    others: Seq<Signature>,
    mine: Seq<char>,
    msig: Seq<SigEntry>,
) -> bool {
    &&& rows.len() == others.len()
    &&& forall|k: int| 0 <= k < rows.len() ==> {
        &&& (#[trigger] rows[k]).source_handle@ == canonical_pair(
            mine,
            others[k].user_handle@,
        ).0
        &&& rows[k].target_handle@ == canonical_pair(mine, others[k].user_handle@).1
        &&& rows[k].matching == spec_matching(msig, others[k].signature@)
        &&& rows[k].out_of == msig.len()
    }
}

/// Computes and appends one similarity row per other stored signature,
/// pairing the handle canonically with each partner. Fails, appending
/// nothing, exactly when the handle holds no signature.
pub fn update_similarities_for(store: &mut MemStore, handle: &str) -> (r: Result<
    (),
    GenericError,
>)
    requires
        forall|i: int, j: int|
            0 <= i < old(store).signatures().len() && 0 <= j < old(store).signatures().len()
                ==> (#[trigger] old(store).signatures()[i]).signature@.len()
                    == (#[trigger] old(store).signatures()[j]).signature@.len(),
    ensures
        final(store).tweets() == old(store).tweets(),
        final(store).shingle_rows() == old(store).shingle_rows(),
        final(store).signatures() == old(store).signatures(),
        match r {
            Result::Err(_) => {
                &&& final(store).similarities() == old(store).similarities()
                &&& forall|i: int|
                    0 <= i < old(store).signatures().len()
                        ==> (#[trigger] old(store).signatures()[i]).user_handle@ != lower_of(
                        handle@,
                    )
            },
            Result::Ok(_) => exists|fi: int| {
                &&& 0 <= fi < old(store).signatures().len()
                &&& (#[trigger] old(store).signatures()[fi]).user_handle@ == lower_of(handle@)
                &&& forall|j: int|
                    0 <= j < fi
                        ==> (#[trigger] old(store).signatures()[j]).user_handle@ != lower_of(
                        handle@,
                    )
                &&& final(store).similarities().len() == old(store).similarities().len()
                    + sigs_other_than(old(store).signatures(), lower_of(handle@)).len()
                &&& forall|k: int|
                    0 <= k < old(store).similarities().len()
                        ==> #[trigger] final(store).similarities()[k]
                            == old(store).similarities()[k]
                &&& sim_rows_ok(
                    final(store).similarities().skip(old(store).similarities().len() as int),
                    sigs_other_than(old(store).signatures(), lower_of(handle@)),
                    lower_of(handle@),
                    old(store).signatures()[fi].signature@,
                )
            },
        },
{
    let folded = fold_handle(handle);
    let signatures = store.get_all_signatures();
    let ghost sigs = store.signatures();
    let n = signatures.len();
    let mut fi: usize = 0;
    let mut have: bool = false;
    while fi < n && !have
        invariant
            fi <= n,
            n == signatures@.len(),
            n == sigs.len(),
            folded@ == lower_of(handle@),
            forall|j: int| 0 <= j < signatures@.len() ==> {
                &&& (#[trigger] signatures@[j]).user_handle == sigs[j].user_handle
                &&& signatures@[j].signature@ == sigs[j].signature@
            },
            !have ==> forall|j: int| 0 <= j < fi ==> (#[trigger] sigs[j]).user_handle@ != folded@,
            have ==> fi < n && sigs[fi as int].user_handle@ == folded@ && forall|j: int|
                0 <= j < fi ==> (#[trigger] sigs[j]).user_handle@ != folded@,
        decreases n - fi + if have { 0int } else { 1int },
    {
        if str_eq(signatures[fi].user_handle.as_str(), folded.as_str()) {
            have = true;
        } else {
            fi = fi + 1;
        }
    }
    if !have {
        return Err(GenericError::from(String::from_str("no signature for handle")));
    }
    let mut rows: Vec<Similarity> = Vec::new();
    let mut i: usize = 0;
    proof {
        assert(sigs.take(0) =~= Seq::<Signature>::empty());
    }
    while i < n
        invariant
            i <= n,
            n == signatures@.len(),
            n == sigs.len(),
            folded@ == lower_of(handle@),
            have,
            fi < n,
            sigs[fi as int].user_handle@ == folded@,
            forall|j: int| 0 <= j < signatures@.len() ==> {
                &&& (#[trigger] signatures@[j]).user_handle == sigs[j].user_handle
                &&& signatures@[j].signature@ == sigs[j].signature@
            },
            forall|a: int, b: int|
                0 <= a < sigs.len() && 0 <= b < sigs.len()
                    ==> (#[trigger] sigs[a]).signature@.len()
                        == (#[trigger] sigs[b]).signature@.len(),
            sim_rows_ok(
                rows@,
                sigs_other_than(sigs.take(i as int), folded@),
                folded@,
                sigs[fi as int].signature@,
            ),
        decreases n - i,
    {
        proof {
            assert(sigs.take(i as int + 1).drop_last() =~= sigs.take(i as int));
            assert(sigs.take(i as int + 1).last() == sigs[i as int]);
        }
        if !str_eq(signatures[fi].user_handle.as_str(), signatures[i].user_handle.as_str()) {
            let (source_handle, target_handle) = compute_similarity_handles(
                signatures[fi].user_handle.as_str(),
                signatures[i].user_handle.as_str(),
            );
            let matching = compute_similarity_matches(
                &signatures[fi].signature,
                &signatures[i].signature,
            );
            let out_of = signatures[fi].signature.len();
            let ghost old_rows = rows@;
            rows.push(Similarity { source_handle, target_handle, matching, out_of });
            proof {
                let others = sigs_other_than(sigs.take(i as int + 1), folded@);
                assert(sigs[i as int].user_handle@ != folded@);
                assert(others =~= sigs_other_than(sigs.take(i as int), folded@).push(
                    sigs[i as int],
                ));
                assert(rows@ =~= old_rows.push(rows@.last()));
            }
        } else {
            proof {
                assert(sigs[i as int].user_handle@ == folded@);
            }
        }
        i = i + 1;
    }
    proof {
        assert(sigs.take(sigs.len() as int) =~= sigs);
    }
    let ghost pre_sims = store.similarities();
    store.insert_similarities(&rows);
    proof {
        assert(store.similarities().skip(pre_sims.len() as int) =~= rows@);
    }
    Ok(())
}

} // verus!
