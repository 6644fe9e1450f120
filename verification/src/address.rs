//! Service addresses: a host and a port, each with its default.
use vstd::prelude::*;

verus! {

broadcast use vstd::string::group_string_axioms;

/// `host:port`.
pub open spec fn address_text(host: Seq<char>, port: Seq<char>) -> Seq<char> {
    host + seq![':'] + port
}

/// The given value, or the default when it is missing.
pub open spec fn or_default(value: Option<String>, default: Seq<char>) -> Seq<char> {
    match value {
        Some(v) => v@,
        None => default,
    }
}

/// `host:port`, where a missing host or port takes its default.
pub fn address(host: Option<String>, port: Option<String>, default_host: &str, default_port: &str) -> (res: String)
    ensures
        res@ == address_text(or_default(host, default_host@), or_default(port, default_port@)),
{
    let mut out = match host {
        Some(h) => h,
        None => default_host.to_string(),
    };
    crate::text::push_str_char(&mut out, ':');
    match port {
        Some(p) => out.append(p.as_str()),
        None => out.append(default_port),
    }
    out
}

} // verus!
