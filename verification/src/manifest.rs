//! Loading a decoded manifest: every suture set compiled in turn.
use vstd::prelude::*;
use crate::compile::{compile, compile_err, spec_compile};
use crate::error::Error;
use crate::schema::{set_models, RawSetModel, RawSutureSet, SutureSchema};
use crate::suture::Suture;

verus! {

/// The outcome of compiling one set, as `load` reports it.
pub open spec fn compiled_as(r: Result<Suture, Error>, set: RawSetModel) -> bool {
    match spec_compile(set) {
        Some(m) => r matches Ok(s) && s@ == m,
        None => r matches Err(Error::Suture(m)) && m@ == compile_err(set),
    }
}

/// Compile a decoded sutures manifest.
///
/// The root name and the list of suture sets must not be empty; then every
/// set is compiled on its own, and each result is reported in order, so
/// that one bad set does not hide the others.
pub fn load(schema: SutureSchema) -> (r: Result<Vec<Result<Suture, Error>>, Error>)
    ensures
        schema.name@.len() == 0 ==> (r matches Err(Error::Suture(m)) && m@
            == "root name must not be empty"@),
        schema.name@.len() > 0 && schema.suture_sets@.len() == 0 ==> (r matches Err(
            Error::Suture(m),
        ) && m@ == "suture_sets must not be empty"@),
        schema.name@.len() > 0 && schema.suture_sets@.len() > 0 ==> (r matches Ok(v) && v@.len()
            == schema.suture_sets@.len() && forall|i: int|
            0 <= i < v@.len() ==> compiled_as(#[trigger] v@[i], set_models(schema.suture_sets@)[i])),
{
    if schema.name.unicode_len() == 0 {
        return Err(Error::Suture("root name must not be empty".to_string()));
    }
    if schema.suture_sets.len() == 0 {
        return Err(Error::Suture("suture_sets must not be empty".to_string()));
    }
    let ghost all = set_models(schema.suture_sets@);
    let mut sets = schema.suture_sets;
    let mut out: Vec<Result<Suture, Error>> = Vec::new();
    let ghost mut k: int = 0;
    while sets.len() > 0
        invariant
            0 <= k <= all.len(),
            out@.len() == k,
            set_models(sets@) == all.skip(k),
            forall|i: int| 0 <= i < k ==> compiled_as(#[trigger] out@[i], all[i]),
        decreases sets@.len(),
    {
        let ghost before = sets@;
        assert(set_models(before).len() == before.len());
        assert(all.skip(k)[0] == all[k]);
        let one = sets.remove(0);
        assert(one == before[0]);
        assert(one@ == all[k]);
        assert forall|j: int| 0 <= j < sets@.len() implies #[trigger] set_models(sets@)[j]
            == all.skip(k + 1)[j] by {
            assert(sets@[j] == before[j + 1]);
            assert(set_models(before)[j + 1] == all.skip(k)[j + 1]);
        }
        assert(set_models(sets@) =~= all.skip(k + 1));
        let c = compile(one);
        assert(compiled_as(c, all[k]));
        out.push(c);
        proof {
            k = k + 1;
        }
    }
    assert(all.skip(k).len() == 0);
    Ok(out)
}

} // verus!
