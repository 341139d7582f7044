//! The configuration of an analysis: which server binary serves which language.

use vstd::prelude::*;
use crate::text::str_eq;

verus! {

/// Server paths by language name.
#[derive(Debug)]
pub struct Config {
    pub servers: Vec<(String, String)>,
}

pub open spec fn servers_view(v: Seq<(String, String)>) -> Seq<(Seq<char>, Seq<char>)> {
    v.map_values(|e: (String, String)| (e.0@, e.1@))
}

impl Default for Config {
    /// One placeholder entry, for rust.
    fn default() -> (r: Config)
        ensures
            servers_view(r.servers@) == seq![("rust"@, "path/to/lsp_server"@)],
    {
        let servers = vec![("rust".to_string(), "path/to/lsp_server".to_string())];
        assert(servers_view(servers@) =~= seq![("rust"@, "path/to/lsp_server"@)]);
        Config { servers }
    }
}

impl Config {
    /// The server path configured for a language: the first entry under its name.
    pub fn server_path(&self, lang: &str) -> (r: Option<String>)
        ensures
            r matches Some(p) ==> exists|k: int| 0 <= k < self.servers@.len()
                && (#[trigger] self.servers@[k]).0@ == lang@ && p@ == self.servers@[k].1@
                && forall|m: int| 0 <= m < k ==> (#[trigger] self.servers@[m]).0@ != lang@,
            r is None ==> forall|k: int| 0 <= k < self.servers@.len() ==> (#[trigger] self.servers@[k]).0@ != lang@,
    {
        let mut i: usize = 0;
        while i < self.servers.len()
            invariant
                i <= self.servers@.len(),
                forall|m: int| 0 <= m < i ==> (#[trigger] self.servers@[m]).0@ != lang@,
            decreases self.servers@.len() - i,
        {
            if str_eq(self.servers[i].0.as_str(), lang) {
                return Some(self.servers[i].1.clone());
            }
            i = i + 1;
        }
        None
    }
}

} // verus!
