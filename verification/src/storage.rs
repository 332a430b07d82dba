//! Where a torrent's files go: the folder it is downloaded into under the
//! chosen path.
use vstd::prelude::*;

verus! {

/// The lowercase hex digit of a value below sixteen.
pub open spec fn hex_digit(n: int) -> char {
    if n < 10 {
        (48 + n) as char
    } else {
        (87 + n) as char
    }
}

/// Lowercase hex of some bytes: two digits per byte, high nibble first.
pub open spec fn spec_hex(bytes: Seq<u8>) -> Seq<char>
    decreases bytes.len(),
{
    if bytes.len() == 0 {
        seq![]
    } else {
        spec_hex(bytes.drop_last()) + seq![
            hex_digit(bytes.last() as int / 16),
            hex_digit(bytes.last() as int % 16),
        ]
    }
}

/// `hex::encode`: the bytes as lowercase hex, two digits per byte.
#[verifier::external_body]
fn hex_encode(bytes: &[u8]) -> (s: String)
    ensures
        s@ == spec_hex(bytes@),
{
    hex::encode(bytes)
}

/// Where a torrent's files are placed under the download path.
#[derive(Debug, Clone, PartialEq, Eq)]
pub struct ContainerPlan {
    /// The folder under the download path that holds the files, if any.
    pub folder: Option<String>,
    /// The container name to remember from now on.
    pub container_name: Option<String>,
}

/// The folder a multi-file torrent gets when the user chose none: its name
/// followed by its info hash in brackets.
pub open spec fn default_container(name: Seq<char>, info_hash: Seq<u8>) -> Seq<char> {
    name + seq![' ', '['] + spec_hex(info_hash) + seq![']']
}

/// Where the files go: into the named container when one is given, directly
/// under the path when the name given is empty, and, when none is given, into
/// a folder named after the torrent and its info hash for a multi-file
/// torrent (remembered as the container from then on) or directly under the
/// path for a single file.
pub open spec fn spec_container_plan(
    container_name: Option<Seq<char>>,
    is_multi_file: bool,
    torrent_name: Seq<char>,
    info_hash: Seq<u8>,
) -> (Option<Seq<char>>, Option<Seq<char>>) {
    match container_name {
        Some(n) => if n.len() > 0 {
            (Some(n), Some(n))
        } else {
            (None, Some(n))
        },
        None => if is_multi_file {
            (
                Some(default_container(torrent_name, info_hash)),
                Some(default_container(torrent_name, info_hash)),
            )
        } else {
            (None, None)
        },
    }
}

/// The view of an optional string.
pub open spec fn opt_view(s: Option<String>) -> Option<Seq<char>> {
    match s {
        Some(v) => Some(v@),
        None => None,
    }
}

/// Where a torrent's files are placed under the download path.
pub fn plan_container(
    container_name: Option<String>,
    is_multi_file: bool,
    torrent_name: &str,
    info_hash: &[u8],
) -> (plan: ContainerPlan)
    ensures
        (opt_view(plan.folder), opt_view(plan.container_name)) == spec_container_plan(
            opt_view(container_name),
            is_multi_file,
            torrent_name@,
            info_hash@,
        ),
{
    match container_name {
        Some(n) => {
            if n.as_str().unicode_len() > 0 {
                let folder = n.clone();
                ContainerPlan { folder: Some(folder), container_name: Some(n) }
            } else {
                ContainerPlan { folder: None, container_name: Some(n) }
            }
        },
        None => {
            if is_multi_file {
                let mut unique = String::from_str(torrent_name);
                proof {
                    reveal_strlit(" [");
                    reveal_strlit("]");
                }
                unique.append(" [");
                let h = hex_encode(info_hash);
                unique.append(h.as_str());
                unique.append("]");
                let folder = unique.clone();
                ContainerPlan { folder: Some(folder), container_name: Some(unique) }
            } else {
                ContainerPlan { folder: None, container_name: None }
            }
        },
    }
}

} // verus!
