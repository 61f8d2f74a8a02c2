use vstd::prelude::*;

use crate::cache::bytes_eq;
use crate::error::{AppError, Status};

verus! {

/// Whether path `path` lies under directory `dir`, comparing whole
/// components (`Path::starts_with`): `dir`'s components are a prefix of
/// `path`'s.
pub open spec fn within(dir: Seq<Seq<u8>>, path: Seq<Seq<u8>>) -> bool {
    dir.is_prefix_of(path)
}

/// Whether the components of `dir` are a prefix of those of `path`.
pub fn is_within(dir: &Vec<Vec<u8>>, path: &Vec<Vec<u8>>) -> (r: bool)
    ensures
        r == within(dir.deep_view(), path.deep_view()),
{
    let ghost d = dir.deep_view();
    let ghost p = path.deep_view();
    if dir.len() > path.len() {
        return false;
    }
    for i in 0..dir.len()
        invariant
            d == dir.deep_view(),
            p == path.deep_view(),
            dir@.len() <= path@.len(),
            forall|j: int| 0 <= j < i ==> d[j] == p[j],
    {
        proof {
            assert(dir@[i as int].deep_view() =~= dir@[i as int]@);
            assert(path@[i as int].deep_view() =~= path@[i as int]@);
        }
        if !bytes_eq(&dir[i], &path[i]) {
            assert(d[i as int] != p[i as int]);
            assert(d != p.subrange(0, d.len() as int));
            return false;
        }
    }
    assert(d =~= p.subrange(0, d.len() as int));
    true
}

/// The detail of the error answered for a model name that leads outside the
/// model directory.
pub open spec fn invalid_name_detail() -> Seq<char> {
    "Invalid model name"@
}

/// The outcome of resolving a model name inside the model directory, given
/// what canonicalizing the directory, the joined path, and (when the path
/// does not resolve) its parent gave.
pub open spec fn model_path_outcome(
    dir: Result<Seq<Seq<u8>>, Seq<char>>,
    canonical: Option<Seq<Seq<u8>>>,
    parent: Option<Seq<Seq<u8>>>,
) -> Result<(), (Status, Seq<char>)> {
    match dir {
        Err(msg) => Err((Status::Internal, "Model dir error: "@ + msg)),
        Ok(d) => match canonical {
            Some(c) => if within(d, c) {
                Ok(())
            } else {
                Err((Status::BadRequest, invalid_name_detail()))
            },
            None => match parent {
                Some(pp) => if within(d, pp) {
                    Ok(())
                } else {
                    Err((Status::BadRequest, invalid_name_detail()))
                },
                None => Err((Status::BadRequest, invalid_name_detail())),
            },
        },
    }
}

/// An accepted model path stays inside the model directory: either the path
/// resolves and its canonical form lies under the canonical directory, or it
/// does not resolve and its parent resolves to a directory under it. A path
/// of which neither resolves is never accepted.
pub proof fn law_accepted_path_inside(
    dir: Result<Seq<Seq<u8>>, Seq<char>>,
    canonical: Option<Seq<Seq<u8>>>,
    parent: Option<Seq<Seq<u8>>>,
)
    requires
        model_path_outcome(dir, canonical, parent) is Ok,
    ensures
        dir is Ok,
        (canonical matches Some(c) && within(dir->Ok_0, c)) || (canonical is None && (parent matches Some(
            pp,
        ) && within(dir->Ok_0, pp))),
{
}

/// Which model paths are accepted, once the model directory `d` is known:
/// exactly those whose canonical path has `d`'s components as a prefix, or,
/// for a path that does not resolve, whose canonical parent has them as a
/// prefix, the directory itself included. So a new file named directly in
/// the model directory (its parent resolving to `d`) is accepted.
pub proof fn law_model_path_accepted_when(
    d: Seq<Seq<u8>>,
    canonical: Option<Seq<Seq<u8>>>,
    parent: Option<Seq<Seq<u8>>>,
)
    ensures
        model_path_outcome(Ok(d), canonical, parent) is Ok <==> (canonical matches Some(c)
            && d.is_prefix_of(c)) || (canonical is None && (parent matches Some(pp)
            && d.is_prefix_of(pp))),
        model_path_outcome(Ok(d), None, Some(d)) is Ok,
{
    assert(d.is_prefix_of(d)) by {
        assert(d.subrange(0, d.len() as int) =~= d);
    }
}

/// Decides whether a requested model path may be used: the canonical model
/// directory must be known, and the canonical path (or, for a file that does
/// not exist yet, its canonical parent) must lie inside it; a path of which
/// neither resolves is refused. `canonical` is `None` when the path does not
/// resolve; `parent` is `None` when there is no parent or it does not resolve
/// either. So a name inside a directory that does not exist is answered
/// `400 Invalid model name` by every handler that resolves names (an upload
/// cannot create a new subdirectory, and an invoke or delete of such a name
/// gets 400 rather than 404).
pub fn check_model_path(
    dir: Result<Vec<Vec<u8>>, String>,
    canonical: Option<Vec<Vec<u8>>>,
    parent: Option<Vec<Vec<u8>>>,
) -> (r: Result<(), AppError>)
    ensures
        r matches Ok(_) ==> model_path_outcome(
            match dir { Ok(d) => Ok(d.deep_view()), Err(m) => Err(m@) },
            match canonical { Some(c) => Some(c.deep_view()), None => None },
            match parent { Some(pp) => Some(pp.deep_view()), None => None },
        ) is Ok,
        r matches Err(e) ==> model_path_outcome(
            match dir { Ok(d) => Ok(d.deep_view()), Err(m) => Err(m@) },
            match canonical { Some(c) => Some(c.deep_view()), None => None },
            match parent { Some(pp) => Some(pp.deep_view()), None => None },
        ) == Err::<(), (Status, Seq<char>)>((e.status, e.detail@)),
{
    match dir {
        Err(msg) => {
            let mut detail = String::from_str("Model dir error: ");
            detail.append(msg.as_str());
            Err(AppError::internal(detail))
        },
        Ok(d) => {
            let inside = match &canonical {
                Some(c) => is_within(&d, c),
                None => match &parent {
                    Some(pp) => is_within(&d, pp),
                    None => false,
                },
            };
            if inside {
                Ok(())
            } else {
                Err(AppError::bad_request(String::from_str("Invalid model name")))
            }
        },
    }
}


/// Refuses a request for a model file that does not exist with
/// `404 Model not found`.
pub fn check_model_exists(exists: bool) -> (r: Result<(), AppError>)
    ensures
        r is Ok <==> exists,
        r matches Err(e) ==> e.status == Status::NotFound && e.detail@ == "Model not found"@,
{
    if exists {
        Ok(())
    } else {
        Err(AppError::not_found(String::from_str("Model not found")))
    }
}

} // verus!
