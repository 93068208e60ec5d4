//! The project file format: a four-byte little-endian format version, then
//! the serialised project; and the name a project is exported under.

use vstd::prelude::*;
use crate::text::{chars_of, push_char, push_decimal, decimal_spec};

verus! {

/// Version of the project file format that is written and read.
pub const CURRENT_PROJECT_VERSION: u32 = 1;

/// The four little-endian bytes of `v`.
pub open spec fn le_bytes(v: u32) -> Seq<u8> {
    seq![(v % 256) as u8, ((v / 256) % 256) as u8, ((v / 65536) % 256) as u8, (v / 16777216) as u8]
}

/// The number four little-endian bytes stand for.
pub open spec fn le_value(b: Seq<u8>) -> int {
    b[0] + 256 * b[1] + 65536 * b[2] + 16777216 * b[3]
}

/// The error for a file too short to hold a version.
pub open spec fn too_small_message() -> Seq<char> {
    "Invalid .rgproject file: too small"@
}

/// The error for a file of another format version.
pub open spec fn unsupported_version_message(version: nat) -> Seq<char> {
    "Unsupported project version: "@ + decimal_spec(version)
}

/// What reading the framing of a project file gives: the serialised project
/// after the version, or why the file cannot be read.
pub open spec fn payload_spec(bytes: Seq<u8>) -> Result<Seq<u8>, Seq<char>> {
    if bytes.len() < 4 {
        Err(too_small_message())
    } else if le_value(bytes) != CURRENT_PROJECT_VERSION {
        Err(unsupported_version_message(le_value(bytes) as nat))
    } else {
        Ok(bytes.skip(4))
    }
}

/// Frame a serialised project: the current format version as four
/// little-endian bytes, then the project.
pub fn project_file_bytes(project_bytes: &[u8]) -> (r: Vec<u8>)
    requires
        project_bytes@.len() + 4 <= usize::MAX,
    ensures
        r@ == le_bytes(CURRENT_PROJECT_VERSION) + project_bytes@,
{
    let v = CURRENT_PROJECT_VERSION;
    let mut out: Vec<u8> = Vec::with_capacity(4 + project_bytes.len());
    out.push((v % 256) as u8);
    out.push(((v / 256) % 256) as u8);
    out.push(((v / 65536) % 256) as u8);
    out.push((v / 16777216) as u8);
    let mut i: usize = 0;
    while i < project_bytes.len()
        invariant
            i <= project_bytes@.len(),
            out@ == le_bytes(v) + project_bytes@.take(i as int),
        decreases project_bytes@.len() - i,
    {
        out.push(project_bytes[i]);
        i = i + 1;
        assert(out@ =~= le_bytes(v) + project_bytes@.take(i as int));
    }
    assert(project_bytes@.take(i as int) =~= project_bytes@);
    out
}

/// Check the framing of a project file and give the serialised project
/// after it: an error when the file is shorter than the four version bytes,
/// or when its version is not the current one.
pub fn project_payload(bytes: &[u8]) -> (r: Result<Vec<u8>, String>)
    ensures
        match r {
            Ok(p) => payload_spec(bytes@) == Ok::<Seq<u8>, Seq<char>>(p@),
            Err(e) => payload_spec(bytes@) == Err::<Seq<u8>, Seq<char>>(e@),
        },
{
    if bytes.len() < 4 {
        return Err(String::from_str("Invalid .rgproject file: too small"));
    }
    let version: u32 = bytes[0] as u32 + 256 * (bytes[1] as u32) + 65536 * (bytes[2] as u32) + 16777216 * (bytes[3] as u32);
    assert(version == le_value(bytes@));
    if version != CURRENT_PROJECT_VERSION {
        let mut msg = String::from_str("Unsupported project version: ");
        push_decimal(&mut msg, version as u64);
        return Err(msg);
    }
    let mut out: Vec<u8> = Vec::new();
    let mut i: usize = 4;
    while i < bytes.len()
        invariant
            4 <= i <= bytes@.len(),
            out@ == bytes@.subrange(4, i as int),
        decreases bytes@.len() - i,
    {
        out.push(bytes[i]);
        i = i + 1;
        assert(out@ =~= bytes@.subrange(4, i as int));
    }
    assert(bytes@.subrange(4, i as int) =~= bytes@.skip(4));
    Ok(out)
}

/// Reading back a framed project gives the project that was framed.
pub proof fn law_payload_after_framing(project_bytes: Seq<u8>)
    ensures
        payload_spec(le_bytes(CURRENT_PROJECT_VERSION) + project_bytes) == Ok::<Seq<u8>, Seq<char>>(project_bytes),
{
    let b = le_bytes(CURRENT_PROJECT_VERSION) + project_bytes;
    assert(le_value(b) == 1);
    assert(b.skip(4) =~= project_bytes);
}

/// A character that file names cannot hold.
pub open spec fn unsafe_file_char(c: char) -> bool {
    c == '/' || c == '\\' || c == ':' || c == '*' || c == '?' || c == '"' || c == '<' || c == '>' || c == '|'
}

/// `name` with each character file names cannot hold replaced by `_`.
pub open spec fn sanitize_spec(name: Seq<char>) -> Seq<char> {
    name.map_values(|c: char| if unsafe_file_char(c) { '_' } else { c })
}

/// The name a project is exported under: the project's name with the
/// characters file names cannot hold replaced by `_`, a dot, the time stamp
/// (the caller's clock, as `%Y-%m-%d-%H%M%S`), and `.rgproject`.
pub fn create_export_filename(project_name: &str, timestamp: &str) -> (r: String)
    ensures
        r@ == sanitize_spec(project_name@) + "."@ + timestamp@ + ".rgproject"@,
{
    let name = chars_of(project_name);
    let stamp = chars_of(timestamp);
    let mut out = String::new();
    let mut i: usize = 0;
    while i < name.len()
        invariant
            i <= name@.len(),
            name@ == project_name@,
            out@ == sanitize_spec(name@.take(i as int)),
        decreases name@.len() - i,
    {
        let c = name[i];
        let d = if c == '/' || c == '\\' || c == ':' || c == '*' || c == '?' || c == '"' || c == '<' || c == '>' || c == '|' { '_' } else { c };
        push_char(&mut out, d);
        i = i + 1;
        assert(out@ =~= sanitize_spec(name@.take(i as int)));
    }
    assert(name@.take(i as int) =~= name@);
    let ghost base = out@;
    proof { reveal_strlit("."); }
    push_char(&mut out, '.');
    assert(out@ =~= base + "."@ + stamp@.take(0));
    let mut j: usize = 0;
    while j < stamp.len()
        invariant
            j <= stamp@.len(),
            stamp@ == timestamp@,
            out@ == base + "."@ + stamp@.take(j as int),
        decreases stamp@.len() - j,
    {
        proof { reveal_strlit("."); }
        push_char(&mut out, stamp[j]);
        j = j + 1;
        assert(out@ =~= base + "."@ + stamp@.take(j as int));
    }
    proof { reveal_strlit("."); }
    assert(stamp@.take(j as int) =~= stamp@);
    let ghost mid = out@;
    let suffix = chars_of(".rgproject");
    let mut k: usize = 0;
    while k < suffix.len()
        invariant
            k <= suffix@.len(),
            suffix@ == ".rgproject"@,
            out@ == mid + suffix@.take(k as int),
        decreases suffix@.len() - k,
    {
        push_char(&mut out, suffix[k]);
        k = k + 1;
        assert(out@ =~= mid + suffix@.take(k as int));
    }
    assert(suffix@.take(k as int) =~= suffix@);
    out
}

/// An exported file name holds none of the characters file names cannot
/// hold, wherever the project name had them, as long as the time stamp has
/// none either.
pub proof fn law_export_filename_is_safe(project_name: Seq<char>, timestamp: Seq<char>)
    requires
        forall|i: int| 0 <= i < timestamp.len() ==> !unsafe_file_char(#[trigger] timestamp[i]),
    ensures
        ({
            let r = sanitize_spec(project_name) + "."@ + timestamp + ".rgproject"@;
            forall|i: int| 0 <= i < r.len() ==> !unsafe_file_char(#[trigger] r[i])
        }),
{
    reveal_strlit(".");
    reveal_strlit(".rgproject");
    let r = sanitize_spec(project_name) + "."@ + timestamp + ".rgproject"@;
    assert forall|i: int| 0 <= i < r.len() implies !unsafe_file_char(#[trigger] r[i]) by {
        let n = project_name.len() as int;
        let t = timestamp.len() as int;
        if i < n {
            assert(r[i] == sanitize_spec(project_name)[i]);
        } else if i == n {
            assert(r[i] == '.');
        } else if i < n + 1 + t {
            assert(r[i] == timestamp[i - n - 1]);
        } else {
            assert(r[i] == ".rgproject"@[i - n - 1 - t]);
        }
    }
}

} // verus!
