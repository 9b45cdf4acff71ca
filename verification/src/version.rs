//! The service's self-description.

use vstd::prelude::*;
use vstd::hash_map::StringHashMap;
use crate::error::ServiceError;

verus! {

/// What `GET /version` answers: the service's name under `service`, and
/// `version` under `version`.
pub fn get_version(version: &str) -> (r: Result<StringHashMap<String>, ServiceError>)
    ensures
        r matches Ok(m) && {
            &&& m@.dom() == set!["service"@, "version"@]
            &&& m@["service"@]@ == "Clash Verge Legacy Service"@
            &&& m@["version"@]@ == version@
        },
{
    let mut map: StringHashMap<String> = StringHashMap::new();
    map.insert(String::from_str("service"), String::from_str("Clash Verge Legacy Service"));
    map.insert(String::from_str("version"), String::from_str(version));
    proof {
        reveal_strlit("service");
        reveal_strlit("version");
        assert("service"@[0] != "version"@[0]);
    }
    assert(map@.dom() =~= set!["service"@, "version"@]);
    Ok(map)
}

} // verus!
