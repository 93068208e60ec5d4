//! Stations' platform lists.

use vstd::prelude::*;
use crate::text::{decimal_spec, push_decimal, parse_unsigned, parse_unsigned_spec, chars_of, str_eq};

verus! {

/// A platform of a station.
#[derive(Debug, Clone)]
pub struct Platform {
    pub name: String,
}

/// Names of a platform list.
pub open spec fn platform_names(ps: Seq<Platform>) -> Seq<Seq<char>> {
    ps.map_values(|p: Platform| p.name@)
}

/// Platform names "1", "2", ..., "n" for positions `from..n` (0-based).
pub open spec fn numbered_names(from: int, n: int) -> Seq<Seq<char>> {
    Seq::new((if n > from { n - from } else { 0 }) as nat, |k: int| decimal_spec((from + k + 1) as nat))
}

/// The default platforms of a new station: "1" and "2".
pub fn default_platforms() -> (r: Vec<Platform>)
    ensures
        platform_names(r@) == seq!["1"@, "2"@],
{
    let mut r: Vec<Platform> = Vec::new();
    r.push(Platform { name: String::from_str("1") });
    r.push(Platform { name: String::from_str("2") });
    assert(platform_names(r@) =~= seq!["1"@, "2"@]);
    r
}

/// Ensure the list has at least `platform_number` platforms, adding numbered
/// platforms ("k" for the k-th) as needed, and return the 0-based index of
/// platform `platform_number` (0 for platform number 0).
pub fn ensure_platforms_up_to(platforms: &mut Vec<Platform>, platform_number: usize) -> (r: usize)
    ensures
        platform_number == 0 ==> r == 0 && final(platforms)@ == old(platforms)@,
        platform_number > 0 ==> r == platform_number - 1,
        platform_number > 0 ==> platform_names(final(platforms)@) == platform_names(old(platforms)@)
            + numbered_names(old(platforms)@.len() as int, platform_number as int),
{
    if platform_number == 0 {
        return 0;
    }
    let ghost start = platform_names(platforms@);
    let ghost n0 = platforms@.len() as int;
    while platforms.len() < platform_number
        invariant
            platform_number > 0,
            n0 <= platforms@.len(),
            platforms@.len() <= n0 || platforms@.len() <= platform_number,
            platform_names(platforms@) == start + numbered_names(n0, platforms@.len() as int),
        decreases platform_number - platforms.len(),
    {
        let next_number = platforms.len() + 1;
        let mut name = String::new();
        push_decimal(&mut name, next_number as u64);
        assert(name@ =~= decimal_spec(next_number as nat));
        let ghost before = platforms@;
        platforms.push(Platform { name });
        assert(platform_names(platforms@) =~= start + numbered_names(n0, platforms@.len() as int)) by {
            assert(platform_names(before) =~= start + numbered_names(n0, before.len() as int));
            assert(platform_names(platforms@).len() == platforms@.len());
            assert(platform_names(before).len() == before.len());
            assert(start.len() == n0);
            assert(numbered_names(n0, platforms@.len() as int).len() == platforms@.len() - n0);
            assert forall|k: int| 0 <= k < platforms@.len() implies
                #[trigger] platform_names(platforms@)[k] == (start + numbered_names(n0, platforms@.len() as int))[k] by {
                if k < before.len() {
                    assert(platform_names(platforms@)[k] == platform_names(before)[k]);
                }
            }
        }
    }
    proof {
        if n0 >= platform_number {
            assert(numbered_names(n0, platforms@.len() as int) =~= numbered_names(n0, platform_number as int));
        }
    }
    platform_number - 1
}

/// Index of the platform with the given name, adding it when missing. A name
/// that is a number makes sure platforms "1" up to that number exist.
pub fn get_or_add_platform(platforms: &mut Vec<Platform>, platform_name: &str) -> (r: usize)
    ensures
        match parse_unsigned_spec(platform_name@, usize::MAX as nat) {
            Some(n) => n == 0 ==> (r == 0 && final(platforms)@ == old(platforms)@),
            None => true,
        },
        match parse_unsigned_spec(platform_name@, usize::MAX as nat) {
            Some(n) => n > 0 ==> (r == n - 1 && platform_names(final(platforms)@)
                == platform_names(old(platforms)@) + numbered_names(old(platforms)@.len() as int, n as int)),
            None => if exists|i: int| 0 <= i < old(platforms)@.len() && old(platforms)@[i].name@ == platform_name@ {
                final(platforms)@ == old(platforms)@ && r < old(platforms)@.len()
                    && old(platforms)@[r as int].name@ == platform_name@
                    && forall|j: int| 0 <= j < r ==> old(platforms)@[j].name@ != platform_name@
            } else {
                platform_names(final(platforms)@) == platform_names(old(platforms)@).push(platform_name@)
                    && r == old(platforms)@.len()
            },
        },
{
    let cs = chars_of(platform_name);
    match parse_unsigned(&cs, usize::MAX as u64) {
        Some(n) => {
            return ensure_platforms_up_to(platforms, n as usize);
        },
        None => {},
    }
    let mut i: usize = 0;
    while i < platforms.len()
        invariant
            i <= platforms@.len(),
            platforms@ == old(platforms)@,
            parse_unsigned_spec(platform_name@, usize::MAX as nat) is None,
            forall|j: int| 0 <= j < i ==> platforms@[j].name@ != platform_name@,
        decreases platforms.len() - i,
    {
        if str_eq(platforms[i].name.as_str(), platform_name) {
            return i;
        }
        i = i + 1;
    }
    platforms.push(Platform { name: String::from_str(platform_name) });
    assert(platform_names(platforms@) =~= platform_names(old(platforms)@).push(platform_name@));
    i
}

} // verus!
