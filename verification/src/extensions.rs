//! Extensions: programs run after each write to the store.
use vstd::prelude::*;
use crate::entry::opt_view;
use crate::store::{join_path, path_join};
use crate::text::{seq_view_of, trim, trim_str};

verus! {

/// Where the configuration of extensions lies.
pub open spec fn config_path_of(home: Option<Seq<char>>) -> Seq<char> {
    match home {
        Some(h) => path_join(path_join(path_join(h, ".config"@), "mind-store"@), "config.toml"@),
        None => ".config/mind-store/config.toml"@,
    }
}

/// The configuration file of extensions, below the home directory if
/// `HOME` is set.
pub fn config_path(home: Option<String>) -> (r: String)
    ensures
        r@ == config_path_of(opt_view(home)),
{
    match home {
        Some(h) => {
            let a = join_path(h.as_str(), ".config");
            let b = join_path(a.as_str(), "mind-store");
            join_path(b.as_str(), "config.toml")
        },
        None => ".config/mind-store/config.toml".to_owned(),
    }
}

/// The binaries of `v` that are not blank, in order.
pub open spec fn non_blank(v: Seq<Seq<char>>) -> Seq<Seq<char>> {
    v.filter(|b: Seq<char>| trim(b).len() > 0)
}

/// The extension binaries that the configuration lists, without blank ones.
pub fn configured_binaries(binaries: Option<Vec<String>>) -> (r: Vec<String>)
    ensures
        seq_view_of(r@) == match binaries {
            Some(v) => non_blank(seq_view_of(v@)),
            None => Seq::empty(),
        },
{
    let v = match binaries {
        Some(v) => v,
        None => {
            return Vec::new();
        },
    };
    let ghost all = seq_view_of(v@);
    let mut out: Vec<String> = Vec::new();
    let mut i: usize = 0;
    while i < v.len()
        invariant
            i <= v.len(),
            all == seq_view_of(v@),
            seq_view_of(out@) == non_blank(all.take(i as int)),
        decreases v.len() - i,
    {
        assert(non_blank(all.take(i + 1)) == if trim(all[i as int]).len() > 0 {
            non_blank(all.take(i as int)).push(all[i as int])
        } else {
            non_blank(all.take(i as int))
        }) by {
            reveal(Seq::filter);
            assert(all.take(i + 1).drop_last() =~= all.take(i as int));
        }
        let t = trim_str(v[i].as_str());
        if !t.as_str().is_empty() {
            out.push(v[i].clone());
            assert(seq_view_of(out@) =~= non_blank(all.take(i as int)).push(all[i as int]));
        }
        i = i + 1;
    }
    assert(all.take(v.len() as int) == all);
    out
}

} // verus!
