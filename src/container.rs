//! Container-side helpers: the services an instance advertises, and the
//! browser's debugging URL read from its log line.

use vstd::prelude::*;
use vstd::string::{StrSliceExecFns, StringExecFns};
use crate::model::{Services, ServicesView};
use crate::text::{chars_of, decimal, decimal_string};

verus! {

broadcast use vstd::string::group_string_axioms;

/// "host:port".
pub open spec fn address(host: Seq<char>, port: u16) -> Seq<char> {
    host + seq![':'] + decimal(port as nat)
}

pub fn address_string(host: &str, port: u16) -> (r: String)
    ensures
        r@ == address(host@, port),
{
    let colon = ":";
    proof {
        reveal_strlit(":");
    }
    let mut r = host.to_owned();
    r.append(colon);
    r.append(decimal_string(port as u64).as_str());
    r
}

/// The services a container advertises: each given port on its address.
pub fn create_services_from_args(
    ip_address: &String,
    cdp_port: Option<u16>,
    tzafonwright_port: Option<u16>,
    _ssh_port: Option<u16>,
) -> (r: Services)
    ensures
        r@ == (ServicesView {
            timestamp_ms: None,
            chrome_debug_port_service: match cdp_port {
                Some(p) => Some(address(ip_address@, p)),
                None => None,
            },
            tzafonwright_service: match tzafonwright_port {
                Some(p) => Some(address(ip_address@, p)),
                None => None,
            },
        }),
{
    Services {
        timestamp_ms: None,
        chrome_debug_port_service: match cdp_port {
            Some(p) => Some(address_string(ip_address.as_str(), p)),
            None => None,
        },
        tzafonwright_service: match tzafonwright_port {
            Some(p) => Some(address_string(ip_address.as_str(), p)),
            None => None,
        },
    }
}

/// The index of the last space in `s`, or -1.
pub open spec fn last_space(s: Seq<char>) -> int
    decreases s.len(),
{
    if s.len() == 0 {
        -1
    } else if s.last() == ' ' {
        s.len() - 1
    } else {
        last_space(s.drop_last())
    }
}

proof fn lemma_last_space_bounds(s: Seq<char>)
    ensures
        -1 <= last_space(s) < s.len(),
    decreases s.len(),
{
    if s.len() > 0 && s.last() != ' ' {
        lemma_last_space_bounds(s.drop_last());
    }
}

/// The last space-separated word of a log line, which carries the URL in
/// the browser's "DevTools listening on <url>" line.
pub fn parse_url_from_line(line: &str) -> (r: String)
    ensures
        r@ == line@.subrange(last_space(line@) + 1, line@.len() as int),
{
    let cs = chars_of(line);
    let mut i: usize = cs.len();
    assert(cs@.subrange(0, i as int) =~= cs@);
    while i > 0 && cs[i - 1] != ' '
        invariant
            i <= cs@.len(),
            cs@ == line@,
            last_space(line@) == last_space(cs@.subrange(0, i as int)),
        decreases i,
    {
        assert(cs@.subrange(0, i as int).drop_last() =~= cs@.subrange(0, i - 1));
        i = i - 1;
    }
    proof {
        if i > 0 {
            assert(cs@.subrange(0, i as int).last() == ' ');
        } else {
            assert(cs@.subrange(0, 0) =~= Seq::<char>::empty());
        }
    }
    line.substring_char(i, cs.len()).to_owned()
}

} // verus!
