//! Entry points for serving frameworks. Each hands the framework's request,
//! reduced to a path and an optional `If-None-Match` value, to the one
//! decision in [`crate::respond`].
use vstd::prelude::*;
use vstd::string::*;

use crate::map::{Asset, AssetMap};
use crate::respond::{respond, respond_spec, text_of, Response};

verus! {

/// Serves a table of assets below a mount point: the path it is given is
/// what follows the mount.
#[derive(Clone, Copy)]
pub struct Static {
    assets: &'static AssetMap<'static>,
}

impl Static {
    /// The table served.
    pub closed spec fn assets(&self) -> AssetMap<'static> {
        *self.assets
    }

    pub fn new(assets: &'static AssetMap<'static>) -> (r: Self)
        ensures
            r.assets() == *assets,
    {
        Static { assets }
    }

    /// The answer to a request for `tail` below the mount point.
    pub fn handle(&self, tail: &str, if_none_match: Option<&str>) -> (r: Response<'static>)
        requires
            self.assets().wf(),
        ensures
            r@ == respond_spec(self.assets().members@, tail@, text_of(if_none_match)),
    {
        respond(self.assets, tail, if_none_match)
    }
}

/// Serves a table of assets at the root of the request path.
#[derive(Clone, Copy)]
pub struct StaticService {
    assets: &'static AssetMap<'static>,
}

impl StaticService {
    /// The table served.
    pub closed spec fn assets(&self) -> AssetMap<'static> {
        *self.assets
    }

    pub fn new(assets: &'static AssetMap<'static>) -> (r: Self)
        ensures
            r.assets() == *assets,
    {
        Self { assets }
    }

    /// The answer to a request for `path`.
    pub fn call(&self, path: &str, if_none_match: Option<&str>) -> (r: Response<'static>)
        requires
            self.assets().wf(),
        ensures
            r@ == respond_spec(self.assets().members@, path@, text_of(if_none_match)),
    {
        respond(self.assets, path, if_none_match)
    }
}

/// One route of a router: the request path that serves one asset.
pub struct Route<'a> {
    pub path: String,
    pub asset: Asset<'a>,
}

/// One route per asset, in the table's order, at `/` followed by its name.
pub fn assets_router(assets: &'static AssetMap<'static>) -> (r: Vec<Route<'static>>)
    ensures
        r@.len() == assets.members@.len(),
        forall|i: int|
            0 <= i < r@.len() ==> {
                &&& (#[trigger] r@[i]).path@ == seq!['/'] + assets.members@[i].name@
                &&& r@[i].asset == assets.members@[i]
            },
{
    let mut routes: Vec<Route<'static>> = Vec::new();
    let mut i: usize = 0;
    while i < assets.members.len()
        invariant
            i <= assets.members@.len(),
            routes@.len() == i,
            forall|k: int|
                0 <= k < i ==> {
                    &&& (#[trigger] routes@[k]).path@ == seq!['/'] + assets.members@[k].name@
                    &&& routes@[k].asset == assets.members@[k]
                },
        decreases assets.members@.len() - i,
    {
        let asset = assets.members[i];
        let mut path = String::from_str("/");
        path.append(asset.name);
        proof {
            reveal_strlit("/");
            assert(path@ =~= seq!['/'] + asset.name@);
        }
        routes.push(Route { path, asset });
        i = i + 1;
    }
    routes
}

} // verus!
