//! Server-level options: where the database lives, where the HTTP server
//! listens, and the master key.  Parsing them from the command line or the
//! environment is the surrounding program's job.

use vstd::prelude::*;

verus! {

pub struct Opt {
    /// The destination where the database must be created.
    pub db_path: String,
    /// The address on which the http server will listen.
    pub http_addr: String,
    /// The master key allowing everything on the server.
    pub api_key: Option<String>,
    /// Do not send analytics.
    pub no_analytics: bool,
}

impl Default for Opt {
    fn default() -> (o: Opt)
        ensures
            o.db_path@ == "/tmp/meilidb"@,
            o.http_addr@ == "127.0.0.1:8080"@,
            o.api_key is None,
            !o.no_analytics,
    {
        Opt {
            db_path: "/tmp/meilidb".to_owned(),
            http_addr: "127.0.0.1:8080".to_owned(),
            api_key: None,
            no_analytics: false,
        }
    }
}

} // verus!
