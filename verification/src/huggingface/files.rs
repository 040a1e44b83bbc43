//! Which files a model directory is loaded from.

use crate::huggingface::tensors::equal_bytes;
use crate::huggingface::HuggingFaceLoadError;
use crate::names::{difference, lemma_irreflexive, lists, texts, NameMap, NameSet};
use crate::text::text;
use std::path::{Component, Path, PathBuf};
use vstd::prelude::*;

verus! {

/// The shards that an index names.
pub open spec fn shards_of(weight_map: Seq<(String, String)>) -> Set<Seq<char>> {
    Set::new(|name: Seq<char>| names_shard(weight_map, name))
}

/// An index names a shard.
pub open spec fn names_shard(weight_map: Seq<(String, String)>, name: Seq<char>) -> bool {
    exists|i: int| 0 <= i < weight_map.len() && (#[trigger] weight_map[i]).1@ == name
}

/// The shards that an index names, each once, in ascending order. `index_path` names the index in
/// messages.
pub fn shard_names(index_path: &str, weight_map: &Vec<(String, String)>) -> (result: Result<
    Vec<String>,
    HuggingFaceLoadError,
>)
    ensures
        match result {
            Ok(names) => weight_map@.len() > 0 && lists(texts(names@), shards_of(weight_map@)),
            Err(error) => weight_map@.len() == 0 && error.0@ == index_path@
                + " contains an empty weight_map"@,
        },
{
    if weight_map.len() == 0 {
        let mut message = text(index_path);
        message.append(" contains an empty weight_map");
        return Err(HuggingFaceLoadError(message));
    }
    let mut names: NameSet = NameMap::new();
    let mut i: usize = 0;
    while i < weight_map.len()
        invariant
            i <= weight_map@.len(),
            names.wf(),
            forall|name: Seq<char>| #[trigger]
                names@.dom().contains(name) <==> names_shard(weight_map@.take(i as int), name),
        decreases weight_map@.len() - i,
    {
        let ghost before = names@.dom();
        let shard = weight_map[i].1.clone();
        let ghost added = shard@;
        let _ = names.insert(shard, ());
        proof {
            let shorter = weight_map@.take(i as int);
            let longer = weight_map@.take(i + 1);
            assert forall|name: Seq<char>| #[trigger]
                names@.dom().contains(name) <==> names_shard(longer, name) by {
                assert(names@.dom().contains(name) <==> before.contains(name) || name == added);
                assert(before.contains(name) <==> names_shard(shorter, name));
                if names_shard(shorter, name) {
                    let j = choose|j: int| 0 <= j < shorter.len() && (#[trigger] shorter[j]).1@ == name;
                    assert(longer[j] == shorter[j]);
                }
                if names_shard(longer, name) {
                    let j = choose|j: int| 0 <= j < longer.len() && (#[trigger] longer[j]).1@ == name;
                    if j < i {
                        assert(shorter[j] == longer[j]);
                    }
                }
                assert(longer[i as int] == weight_map@[i as int]);
            }
        }
        i += 1;
    }
    assert(weight_map@.take(i as int) =~= weight_map@);
    let none: NameSet = NameMap::new();
    let list = difference(&names, &none);
    assert(names@.dom().difference(none@.dom()) =~= shards_of(weight_map@));
    Ok(list)
}

/// A component of a path.
#[derive(Debug, Clone, Copy, PartialEq, Eq, Structural)]
pub enum PathPart {
    Prefix,
    Root,
    Current,
    Parent,
    Normal,
}

/// On some platform `Path::components` takes a path apart into these kinds of components.
pub uninterp spec fn path_may_have_parts(path: Seq<char>, parts: Seq<PathPart>) -> bool;

/// On some platform `Path::is_absolute` says this of a path.
pub uninterp spec fn path_may_be_absolute(path: Seq<char>, absolute: bool) -> bool;

/// Calls `Path::components` of std and tells the kinds of components apart. How a path is taken
/// apart depends on the platform, so nothing is claimed but that it is taken apart in a way that
/// some platform has.
#[verifier::external_body]
fn path_parts(path: &str) -> (parts: Vec<PathPart>)
    ensures
        path_may_have_parts(path@, parts@),
{
    let mut parts = Vec::new();
    for component in Path::new(path).components() {
        parts.push(match component {
            Component::Prefix(_) => PathPart::Prefix,
            Component::RootDir => PathPart::Root,
            Component::CurDir => PathPart::Current,
            Component::ParentDir => PathPart::Parent,
            Component::Normal(_) => PathPart::Normal,
        });
    }
    parts
}

/// Calls `Path::is_absolute` of std. What makes a path absolute depends on the platform, so nothing
/// is claimed but that some platform says so.
#[verifier::external_body]
fn is_absolute(path: &str) -> (absolute: bool)
    ensures
        path_may_be_absolute(path@, absolute),
{
    Path::new(path).is_absolute()
}

/// A shard path could lead out of the model directory.
pub open spec fn leads_out(absolute: bool, parts: Seq<PathPart>) -> bool {
    absolute || parts.contains(PathPart::Parent)
}

/// Whether a shard path, taken apart, could lead out of the model directory.
pub fn could_lead_out(absolute: bool, parts: &[PathPart]) -> (out: bool)
    ensures
        out == leads_out(absolute, parts@),
{
    if absolute {
        return true;
    }
    let mut i: usize = 0;
    while i < parts.len()
        invariant
            i <= parts@.len(),
            forall|j: int| 0 <= j < i ==> #[trigger] parts@[j] != PathPart::Parent,
        decreases parts@.len() - i,
    {
        if parts[i] == PathPart::Parent {
            assert(parts@[i as int] == PathPart::Parent);
            return true;
        }
        i += 1;
    }
    false
}

/// On some platform a shard path could lead out of the model directory, or could not.
pub open spec fn may_lead_out(name: Seq<char>, out: bool) -> bool {
    exists|absolute: bool, parts: Seq<PathPart>|
        #![trigger leads_out(absolute, parts)]
        path_may_be_absolute(name, absolute) && path_may_have_parts(name, parts) && out
            == leads_out(absolute, parts)
}

/// The message for a shard path that could lead out of the model directory.
pub open spec fn unsafe_message(name: Seq<char>) -> Seq<char> {
    "Safetensors index contains an unsafe shard path: "@ + name
}

/// Refuse a shard path that is absolute or goes up.
///
/// What is absolute and what goes up is the platform's to say.
pub fn check_shard_name(name: &str) -> (result: Result<(), HuggingFaceLoadError>)
    ensures
        match result {
            Ok(_) => may_lead_out(name@, false),
            Err(error) => may_lead_out(name@, true) && error.0@ == unsafe_message(name@),
        },
{
    let absolute = is_absolute(name);
    let parts = path_parts(name);
    if could_lead_out(absolute, &parts) {
        assert(leads_out(absolute, parts@));
        let mut message = text("Safetensors index contains an unsafe shard path: ");
        message.append(name);
        return Err(HuggingFaceLoadError(message));
    }
    assert(!leads_out(absolute, parts@));
    Ok(())
}

/// A path lies in a directory: its components begin with those of the directory.
pub open spec fn inside(directory: Seq<Vec<u8>>, path: Seq<Vec<u8>>) -> bool {
    directory.len() <= path.len() && forall|i: int|
        0 <= i < directory.len() ==> (#[trigger] directory[i])@ == path[i]@
}

/// Refuse a shard whose real path does not lie in the model directory. Both are given by their
/// components; `shown` is how the path reads in messages.
pub fn check_shard_location(
    directory: &Vec<Vec<u8>>,
    path: &Vec<Vec<u8>>,
    shown: &str,
) -> (result: Result<(), HuggingFaceLoadError>)
    ensures
        match result {
            Ok(_) => inside(directory@, path@),
            Err(error) => !inside(directory@, path@) && error.0@
                == "Safetensors shard resolves outside the model directory: "@ + shown@,
        },
{
    let mut within = directory.len() <= path.len();
    let mut i: usize = 0;
    while within && i < directory.len()
        invariant
            within ==> directory@.len() <= path@.len(),
            within ==> i <= directory@.len(),
            within ==> forall|j: int| 0 <= j < i ==> (#[trigger] directory@[j])@ == path@[j]@,
            !within ==> !inside(directory@, path@),
        decreases directory@.len() - i + if within { 1int } else { 0int },
    {
        if equal_bytes(&directory[i], &path[i]) {
            i += 1;
        } else {
            within = false;
        }
    }
    if !within {
        let mut message = text("Safetensors shard resolves outside the model directory: ");
        message.append(shown);
        return Err(HuggingFaceLoadError(message));
    }
    Ok(())
}

/// What the file system says of a shard.
#[derive(Debug)]
pub enum ShardLookup {
    /// There is no such file. The path is given as it reads in messages.
    Missing(String),
    /// Its real path could not be found out.
    Failed(String),
    /// Its real path: the components, how it reads in messages, and the path itself.
    Found { components: Vec<Vec<u8>>, shown: String, path: PathBuf },
}

/// Why a shard cannot be used, by what the file system says of it.
pub open spec fn lookup_error(directory: Seq<Vec<u8>>, answer: ShardLookup) -> Option<Seq<char>> {
    match answer {
        ShardLookup::Missing(shown) => Some("Safetensors shard does not exist: "@ + shown@),
        ShardLookup::Failed(message) => Some(message@),
        ShardLookup::Found { components, shown, .. } => if inside(directory, components@) {
            None
        } else {
            Some("Safetensors shard resolves outside the model directory: "@ + shown@)
        },
    }
}

/// Use a shard where the file system has it in the model directory.
fn use_shard(directory: &Vec<Vec<u8>>, answer: ShardLookup) -> (result: Result<
    PathBuf,
    HuggingFaceLoadError,
>)
    ensures
        match (result, lookup_error(directory@, answer)) {
            (Ok(found), None) => found == answer->path,
            (Err(error), Some(message)) => error.0@ == message,
            _ => false,
        },
{
    match answer {
        ShardLookup::Missing(shown) => {
            let mut message = text("Safetensors shard does not exist: ");
            message.append(shown.as_str());
            Err(HuggingFaceLoadError(message))
        },
        ShardLookup::Failed(message) => Err(HuggingFaceLoadError(message)),
        ShardLookup::Found { components, shown, path } => match check_shard_location(
            directory,
            &components,
            shown.as_str(),
        ) {
            Ok(_) => Ok(path),
            Err(error) => Err(error),
        },
    }
}

/// A shard may be used under this path: its name does not lead out, and the file system has it in
/// the model directory.
pub open spec fn usable_at<F: Fn(&String) -> ShardLookup>(
    directory: Seq<Vec<u8>>,
    lookup: F,
    name: Seq<char>,
    path: PathBuf,
) -> bool {
    may_lead_out(name, false) && exists|key: &String, answer: ShardLookup|
        key@ == name && #[trigger] call_ensures(lookup, (key,), answer) && lookup_error(
            directory,
            answer,
        ) is None && path == answer->path
}

/// A shard is refused with a message: its name could lead out, or the file system does not have it
/// in the model directory.
pub open spec fn refused_with<F: Fn(&String) -> ShardLookup>(
    directory: Seq<Vec<u8>>,
    lookup: F,
    name: Seq<char>,
    message: Seq<char>,
) -> bool {
    ||| may_lead_out(name, true) && message == unsafe_message(name)
    ||| may_lead_out(name, false) && exists|key: &String, answer: ShardLookup|
        key@ == name && #[trigger] call_ensures(lookup, (key,), answer) && lookup_error(
            directory,
            answer,
        ) == Some(message)
}

/// What looking up shards one by one comes to: all of them, or the first that is refused.
pub open spec fn located<F: Fn(&String) -> ShardLookup>(
    directory: Seq<Vec<u8>>,
    lookup: F,
    names: Seq<Seq<char>>,
    result: Result<Vec<PathBuf>, HuggingFaceLoadError>,
) -> bool {
    match result {
        Ok(files) => files@.len() == names.len() && forall|i: int|
            0 <= i < names.len() ==> usable_at(directory, lookup, names[i], #[trigger] files@[i]),
        Err(error) => exists|earlier: Seq<PathBuf>|
            #![trigger earlier.len()]
            earlier.len() < names.len() && (forall|i: int|
                0 <= i < earlier.len() ==> usable_at(
                    directory,
                    lookup,
                    names[i],
                    #[trigger] earlier[i],
                )) && refused_with(directory, lookup, names[earlier.len() as int], error.0@),
    }
}

/// What finding the weight files of a directory comes to: a single file where there is one, and
/// otherwise the shards that the index names, in ascending order.
pub open spec fn discovered<
    I: FnOnce() -> Result<Vec<(String, String)>, HuggingFaceLoadError>,
    F: Fn(&String) -> ShardLookup,
>(
    single: Option<PathBuf>,
    index_path: Seq<char>,
    directory: Seq<Vec<u8>>,
    read_index: I,
    lookup: F,
    result: Result<Vec<PathBuf>, HuggingFaceLoadError>,
) -> bool {
    match single {
        Some(path) => result matches Ok(files) && files@ == seq![path],
        None => exists|index: Result<Vec<(String, String)>, HuggingFaceLoadError>| #[trigger]
            call_ensures(read_index, (), index) && match index {
                Err(error) => result == Err::<Vec<PathBuf>, HuggingFaceLoadError>(error),
                Ok(weight_map) => if weight_map@.len() == 0 {
                    result matches Err(error) && error.0@ == index_path
                        + " contains an empty weight_map"@
                } else {
                    exists|names: Seq<Seq<char>>| #[trigger]
                        lists(names, shards_of(weight_map@)) && located(
                            directory,
                            lookup,
                            names,
                            result,
                        )
                },
            },
    }
}

/// Find the weight files of a model directory.
pub fn discover_weight_files<
    I: FnOnce() -> Result<Vec<(String, String)>, HuggingFaceLoadError>,
    F: Fn(&String) -> ShardLookup,
>(
    single: Option<PathBuf>,
    index_path: &str,
    directory: &Vec<Vec<u8>>,
    read_index: I,
    lookup: F,
) -> (result: Result<Vec<PathBuf>, HuggingFaceLoadError>)
    requires
        single is None ==> call_requires(read_index, ()),
        forall|name: &String| #[trigger] call_requires(lookup, (name,)),
    ensures
        discovered(single, index_path@, directory@, read_index, lookup, result),
{
    if let Some(path) = single {
        let files = vec![path];
        assert(files@ =~= seq![path]);
        return Ok(files);
    }
    let weight_map = match read_index() {
        Ok(weight_map) => weight_map,
        Err(error) => {
            return Err(error);
        },
    };
    let names = match shard_names(index_path, &weight_map) {
        Ok(names) => names,
        Err(error) => {
            return Err(error);
        },
    };
    let ghost listed = texts(names@);
    let mut files: Vec<PathBuf> = Vec::with_capacity(names.len());
    let mut i: usize = 0;
    while i < names.len()
        invariant
            i <= names@.len(),
            listed == texts(names@),
            files@.len() == i,
            forall|name: &String| #[trigger] call_requires(lookup, (name,)),
            lists(listed, shards_of(weight_map@)),
            call_ensures(read_index, (), Ok(weight_map)),
            single is None,
            weight_map@.len() > 0,
            forall|j: int|
                0 <= j < i ==> usable_at(directory@, lookup, listed[j], #[trigger] files@[j]),
        decreases names@.len() - i,
    {
        let name = &names[i];
        let ghost earlier = files@;
        match check_shard_name(name.as_str()) {
            Ok(_) => {},
            Err(error) => {
                assert(refused_with(directory@, lookup, listed[earlier.len() as int], error.0@));
                return Err(error);
            },
        }
        let answer = lookup(name);
        let ghost given = answer;
        match use_shard(directory, answer) {
            Ok(path) => {
                assert(usable_at(directory@, lookup, listed[i as int], path)) by {
                    assert(call_ensures(lookup, (name,), given));
                }
                files.push(path);
            },
            Err(error) => {
                assert(refused_with(directory@, lookup, listed[earlier.len() as int], error.0@)) by {
                    assert(call_ensures(lookup, (name,), given));
                }
                return Err(error);
            },
        }
        i += 1;
    }
    Ok(files)
}

/// The weight files of a directory are its single file where there is one. Otherwise they are one
/// file for each shard that the index names, each found by its name, with a real path whose
/// components begin with those of the directory; a name that goes up or starts at a root, on the
/// platform at hand, is none of them.
pub proof fn law_shards_stay_in_the_directory<
    I: FnOnce() -> Result<Vec<(String, String)>, HuggingFaceLoadError>,
    F: Fn(&String) -> ShardLookup,
>(
    single: Option<PathBuf>,
    index_path: Seq<char>,
    directory: Seq<Vec<u8>>,
    read_index: I,
    lookup: F,
    files: Vec<PathBuf>,
)
    requires
        discovered(single, index_path, directory, read_index, lookup, Ok(files)),
    ensures
        single matches Some(path) ==> files@.len() == 1 && files@[0] == path,
        single is None ==> exists|weight_map: Vec<(String, String)>, names: Seq<Seq<char>>|
            {
                &&& #[trigger] call_ensures(read_index, (), Ok(weight_map))
                &&& #[trigger] names.len() == files@.len()
                &&& weight_map@.len() > 0
                &&& forall|i: int|
                    0 <= i < weight_map@.len() ==> names.contains((#[trigger] weight_map@[i]).1@)
                &&& forall|i: int|
                    0 <= i < files@.len() ==> found_inside(
                        directory,
                        lookup,
                        names[i],
                        #[trigger] files@[i],
                    )
                &&& forall|i: int, j: int| 0 <= i < j < names.len() ==> names[i] != names[j]
            },
{
    if single is None {
        let index = choose|index: Result<Vec<(String, String)>, HuggingFaceLoadError>|
            #[trigger] call_ensures(read_index, (), index) && match index {
                Err(error) => false,
                Ok(weight_map) => if weight_map@.len() == 0 {
                    false
                } else {
                    exists|names: Seq<Seq<char>>| #[trigger]
                        lists(names, shards_of(weight_map@)) && located(
                            directory,
                            lookup,
                            names,
                            Ok::<Vec<PathBuf>, HuggingFaceLoadError>(files),
                        )
                },
            };
        let weight_map = index->Ok_0;
        assert(call_ensures(read_index, (), Ok(weight_map)));
        let names = choose|names: Seq<Seq<char>>| #[trigger]
            lists(names, shards_of(weight_map@)) && located(
                directory,
                lookup,
                names,
                Ok::<Vec<PathBuf>, HuggingFaceLoadError>(files),
            );
        assert forall|i: int| 0 <= i < weight_map@.len() implies names.contains(
            (#[trigger] weight_map@[i]).1@,
        ) by {
            assert(shards_of(weight_map@).contains(weight_map@[i].1@));
        }
        assert forall|i: int| 0 <= i < files@.len() implies found_inside(
            directory,
            lookup,
            names[i],
            #[trigger] files@[i],
        ) by {
            assert(usable_at(directory, lookup, names[i], files@[i]));
            let (absolute, parts) = choose|absolute: bool, parts: Seq<PathPart>|
                #![trigger leads_out(absolute, parts)]
                path_may_be_absolute(names[i], absolute) && path_may_have_parts(names[i], parts)
                    && !leads_out(absolute, parts);
            assert(path_may_be_absolute(names[i], false));
            assert(path_may_have_parts(names[i], parts));
            let (key, answer) = choose|key: &String, answer: ShardLookup|
                key@ == names[i] && #[trigger] call_ensures(lookup, (key,), answer) && lookup_error(
                    directory,
                    answer,
                ) is None && files@[i] == answer->path;
            assert(call_ensures(lookup, (key,), answer));
        }
        assert forall|i: int, j: int| 0 <= i < j < names.len() implies names[i] != names[j] by {
            lemma_irreflexive(names[i]);
        }
        assert(names.len() == files@.len());
    }
}

/// A file was found under a name that stays in the directory, at a path whose components begin with
/// those of the directory.
pub open spec fn found_inside<F: Fn(&String) -> ShardLookup>(
    directory: Seq<Vec<u8>>,
    lookup: F,
    name: Seq<char>,
    file: PathBuf,
) -> bool {
    &&& path_may_be_absolute(name, false)
    &&& exists|parts: Seq<PathPart>| #[trigger]
        path_may_have_parts(name, parts) && forall|i: int|
            0 <= i < parts.len() ==> #[trigger] parts[i] != PathPart::Parent
    &&& exists|key: &String, answer: ShardLookup| #[trigger]
        call_ensures(lookup, (key,), answer) && key@ == name && match answer {
            ShardLookup::Found { components, path, .. } => {
                &&& path == file
                &&& directory.len() <= components@.len()
                &&& forall|i: int|
                    0 <= i < directory.len() ==> (#[trigger] directory[i])@ == components@[i]@
            },
            _ => false,
        }
}

} // verus!
