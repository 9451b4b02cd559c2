//! Path-parameter definitions.

use vstd::prelude::*;

verus! {

/// The definition of one path parameter: the name used for result
/// extraction, and the full-match token that locates the placeholder
/// segment in the path template.
pub struct PathParam {
    pub name: String,
    pub full: String,
}

/// The mathematical value of a parameter definition.
pub struct PathParamView {
    pub name: Seq<char>,
    pub full: Seq<char>,
}

impl View for PathParam {
    type V = PathParamView;

    open spec fn view(&self) -> PathParamView {
        PathParamView { name: self.name@, full: self.full@ }
    }
}

/// The views of a sequence of parameter definitions.
pub open spec fn params_view(v: Seq<PathParam>) -> Seq<PathParamView> {
    v.map_values(|p: PathParam| p@)
}

/// Whether some definition in `ps` has `tok` as its full-match token.
pub open spec fn params_have_full(ps: Seq<PathParamView>, tok: Seq<char>) -> bool {
    exists|k: int| 0 <= k < ps.len() && (#[trigger] ps[k]).full == tok
}

/// Whether two lists of parameter definitions are equal by value.
pub fn path_parameters_eq(a: &Vec<PathParam>, b: &Vec<PathParam>) -> (r: bool)
    ensures
        r == (params_view(a@) == params_view(b@)),
{
    if a.len() != b.len() {
        proof {
            assert(params_view(a@).len() != params_view(b@).len());
        }
        return false;
    }
    let mut i: usize = 0;
    while i < a.len()
        invariant
            i <= a@.len(),
            a@.len() == b@.len(),
            forall|k: int| 0 <= k < i ==> (#[trigger] a@[k])@ == b@[k]@,
        decreases a@.len() - i,
    {
        let name_eq = a[i].name == b[i].name;
        let full_eq = a[i].full == b[i].full;
        if !(name_eq && full_eq) {
            proof {
                assert(params_view(a@)[i as int] != params_view(b@)[i as int]);
            }
            return false;
        }
        i += 1;
    }
    proof {
        assert(params_view(a@) =~= params_view(b@));
    }
    true
}

/// Whether `tok` is the full-match token of one of `params`.
pub fn has_full_token(params: &Vec<PathParam>, tok: &String) -> (r: bool)
    ensures
        r == params_have_full(params_view(params@), tok@),
{
    let mut i: usize = 0;
    while i < params.len()
        invariant
            i <= params@.len(),
            forall|k: int| 0 <= k < i ==> (#[trigger] params_view(params@)[k]).full != tok@,
        decreases params@.len() - i,
    {
        if params[i].full == *tok {
            proof {
                assert(params_view(params@)[i as int].full == tok@);
            }
            return true;
        }
        i += 1;
    }
    false
}

/// A by-value copy of a list of parameter definitions.
pub fn clone_params(v: &Vec<PathParam>) -> (r: Vec<PathParam>)
    ensures
        r@ == v@,
{
    let mut r: Vec<PathParam> = Vec::new();
    let mut i: usize = 0;
    while i < v.len()
        invariant
            i <= v@.len(),
            r@ == v@.subrange(0, i as int),
        decreases v@.len() - i,
    {
        let p = PathParam { name: v[i].name.clone(), full: v[i].full.clone() };
        r.push(p);
        i += 1;
        proof {
            assert(v@.subrange(0, i as int) =~= v@.subrange(0, i - 1).push(v@[i - 1]));
        }
    }
    proof {
        assert(v@.subrange(0, v@.len() as int) =~= v@);
    }
    r
}

} // verus!
