//! Workbook packages: their members, the parts that hold sheets, and their limits.
use crate::error::Error;
use crate::text::{chars, has_end, has_start, joined, same, small_letters, split, string, views};
use crate::tree::{value, value_in};
use crate::workbook::Format;
use crate::xml::{parse_xml, utf8, Xml};
use std::io::{Cursor, Read};
use vstd::prelude::*;
use zip::ZipArchive;

verus! {

/// Namespaces of OpenDocument.
pub const TABLE: &'static str = "urn:oasis:names:tc:opendocument:xmlns:table:1.0";

pub const OFFICE: &'static str = "urn:oasis:names:tc:opendocument:xmlns:office:1.0";

pub const TEXT: &'static str = "urn:oasis:names:tc:opendocument:xmlns:text:1.0";

/// The most bytes of an XML member, and of all members together.
pub const XML_LIMIT: u64 = 134_217_728;

pub const PACKAGE_LIMIT: u64 = 268_435_456;

/// A member by name with its size, or why it does not read.
pub type Listed = Result<(Seq<char>, u64), Seq<char>>;

/// The members of a ZIP archive in the order of its directory, or why it is none.
pub uninterp spec fn zip_members(data: Seq<u8>) -> Result<Seq<Listed>, Seq<char>>;

/// The text of a member of a ZIP archive up to so many bytes, or why it does not read.
pub uninterp spec fn zip_text(data: Seq<u8>, name: Seq<char>, limit: u64) -> Result<
    Seq<char>,
    Seq<char>,
>;

/// What a listed member holds.
pub open spec fn member_view(r: Result<(String, u64), String>) -> Listed {
    match r {
        Ok((name, size)) => Ok((name@, size)),
        Err(reason) => Err(reason@),
    }
}

/// What a list of members holds.
pub open spec fn members_result(r: Result<Vec<Result<(String, u64), String>>, String>) -> Result<
    Seq<Listed>,
    Seq<char>,
> {
    match r {
        Ok(list) => Ok(list@.map_values(|m: Result<(String, u64), String>| member_view(m))),
        Err(reason) => Err(reason@),
    }
}

/// What a text that was read holds.
pub open spec fn text_result(r: Result<String, String>) -> Result<Seq<char>, Seq<char>> {
    match r {
        Ok(text) => Ok(text@),
        Err(reason) => Err(reason@),
    }
}

/// `zip::ZipArchive::new` reads the directory of an archive, and
/// `zip::ZipArchive::by_index` gives each member in its order, by name and uncompressed
/// size. The outcome depends on the bytes alone.
#[verifier::external_body]
fn list_members(data: &[u8]) -> (r: Result<Vec<Result<(String, u64), String>>, String>)
    ensures
        members_result(r) == zip_members(data@),
{
    let mut zip = ZipArchive::new(Cursor::new(data)).map_err(|error| error.to_string())?;
    let count: usize = zip.len();
    let member = |i: usize| match zip.by_index(i) {
        Ok(file) => Ok((file.name().to_owned(), file.size())),
        Err(error) => Err(error.to_string()),
    };
    Ok((0..count).map(member).collect())
}

/// `zip::ZipArchive::by_name` finds a member, and reading it through `std::io::Read::take`
/// gives no more than `limit` bytes, which have to be UTF-8. The outcome depends on the
/// bytes, the name and the limit alone.
#[verifier::external_body]
fn read_text(data: &[u8], name: &str, limit: u64) -> (r: Result<String, String>)
    ensures
        text_result(r) == zip_text(data@, name@, limit),
        r matches Ok(text) ==> utf8(text@).len() <= limit,
{
    let mut zip = ZipArchive::new(Cursor::new(data)).map_err(|error| error.to_string())?;
    let file = zip.by_name(name).map_err(|error| error.to_string())?;
    let mut text = String::new();
    file.take(limit).read_to_string(&mut text).map_err(|error| error.to_string())?;
    Ok(text)
}

/// One of the first `n` members has this name.
pub open spec fn listed_before(list: Seq<Listed>, n: int, name: Seq<char>) -> bool {
    exists|k: int| 0 <= k < n && ((#[trigger] list[k]) matches Ok(m) && m.0 == name)
}

/// Why the members from `i` on are refused, after members of `size` bytes.
pub open spec fn members_refusal(list: Seq<Listed>, i: int, size: int) -> Option<Seq<char>>
    decreases list.len() - i,
{
    if i >= list.len() {
        None
    } else {
        match list[i] {
            Err(reason) => Some(reason),
            Ok((name, bytes)) => if listed_before(list, i, name) {
                Some(Error::DuplicateMembers.message())
            } else if size + bytes > u64::MAX {
                Some(Error::WorkbookTooLarge.message())
            } else if size + bytes > PACKAGE_LIMIT {
                Some(Error::PackageLimit.message())
            } else if crate::text::ends_with(name, ".xml"@) && bytes > XML_LIMIT {
                Some(Error::MemberLimit.message())
            } else {
                members_refusal(list, i + 1, size + bytes)
            },
        }
    }
}

/// Why a package is refused.
pub open spec fn archive_refusal(data: Seq<u8>) -> Option<Seq<char>> {
    match zip_members(data) {
        Err(reason) => Some(reason),
        Ok(list) => members_refusal(list, 0, 0),
    }
}

/// The names of a list of members.
pub open spec fn listed_names(list: Seq<Listed>) -> Seq<Seq<char>> {
    list.map_values(|m: Listed| m->Ok_0.0)
}

fn contains_name(names: &Vec<String>, name: &str) -> (r: bool)
    ensures
        r == views(names@).contains(name@),
{
    let mut i: usize = 0;
    while i < names.len()
        invariant
            i <= names@.len(),
            forall|k: int| 0 <= k < i ==> (#[trigger] names@[k])@ != name@,
        decreases names@.len() - i,
    {
        if same(names[i].as_str(), name) {
            assert(views(names@)[i as int] == name@);
            return true;
        }
        i = i + 1;
    }
    proof {
        assert forall|k: int| 0 <= k < views(names@).len() implies views(names@)[k] != name@ by {
            assert(names@[k]@ != name@);
        }
    }
    false
}

/// The names of the members that are listed, unless one of them is refused.
pub fn check_members(members: &Vec<Result<(String, u64), String>>) -> (r: Result<
    Vec<String>,
    Error,
>)
    ensures
        ({
            let list = members@.map_values(|m: Result<(String, u64), String>| member_view(m));
            match r {
                Ok(names) => members_refusal(list, 0, 0) is None && views(names@) == listed_names(
                    list,
                ),
                Err(error) => members_refusal(list, 0, 0) == Some(error.message()),
            }
        }),
{
    let ghost list = members@.map_values(|m: Result<(String, u64), String>| member_view(m));
    let mut names: Vec<String> = Vec::new();
    let mut size: u64 = 0;
    let mut i: usize = 0;
    assert(views(names@) =~= listed_names(list.take(0)));
    while i < members.len()
        invariant
            list == members@.map_values(|m: Result<(String, u64), String>| member_view(m)),
            i <= members@.len(),
            forall|k: int| 0 <= k < i ==> (#[trigger] list[k]) is Ok,
            views(names@) == listed_names(list.take(i as int)),
            size <= PACKAGE_LIMIT,
            members_refusal(list, 0, 0) == members_refusal(list, i as int, size as int),
        decreases members@.len() - i,
    {
        match &members[i] {
            Err(reason) => {
                return Err(Error::Archive(reason.clone()));
            },
            Ok((name, bytes)) => {
                let bytes: u64 = *bytes;
                let known = contains_name(&names, name.as_str());
                proof {
                    let seen = views(names@);
                    assert(seen.contains(name@) == listed_before(list, i as int, name@)) by {
                        if seen.contains(name@) {
                            let k = choose|k: int| 0 <= k < seen.len() && seen[k] == name@;
                            assert(list.take(i as int)[k] == list[k]);
                            assert(list[k] is Ok);
                        }
                        if listed_before(list, i as int, name@) {
                            let k = choose|k: int|
                                0 <= k < i && ((#[trigger] list[k]) matches Ok(m) && m.0 == name@);
                            assert(list.take(i as int)[k] == list[k]);
                            assert(seen[k] == name@);
                        }
                    }
                }
                if known {
                    return Err(Error::DuplicateMembers);
                }
                match size.checked_add(bytes) {
                    None => {
                        return Err(Error::WorkbookTooLarge);
                    },
                    Some(total) => {
                        size = total;
                    },
                }
                if size > PACKAGE_LIMIT {
                    return Err(Error::PackageLimit);
                }
                if has_end(name.as_str(), ".xml") && bytes > XML_LIMIT {
                    return Err(Error::MemberLimit);
                }
                let ghost before = views(names@);
                names.push(name.clone());
                proof {
                    assert(views(names@) =~= before.push(name@));
                    assert(list[i as int] == member_view(members@[i as int]));
                    assert(listed_names(list.take(i + 1)) =~= listed_names(
                        list.take(i as int),
                    ).push(name@));
                }
            },
        }
        i = i + 1;
    }
    assert(list.take(list.len() as int) =~= list);
    Ok(names)
}

/// The names of the members of a package, unless it is refused.
pub fn archive(data: &[u8]) -> (r: Result<Vec<String>, Error>)
    ensures
        match r {
            Ok(names) => archive_refusal(data@) is None && views(names@) == listed_names(
                zip_members(data@)->Ok_0,
            ),
            Err(error) => archive_refusal(data@) == Some(error.message()),
        },
{
    match list_members(data) {
        Err(reason) => Err(Error::Archive(reason)),
        Ok(members) => check_members(&members),
    }
}

/// The text of an XML part.
pub open spec fn part_text(data: Seq<u8>, name: Seq<char>) -> Result<Seq<char>, Seq<char>> {
    match zip_text(data, name, (XML_LIMIT + 1) as u64) {
        Err(reason) => Err(reason),
        Ok(text) => within_limit(text),
    }
}

/// A text, unless it has more bytes than an XML part can.
pub open spec fn within_limit(text: Seq<char>) -> Result<Seq<char>, Seq<char>> {
    if utf8(text).len() > XML_LIMIT {
        Err(Error::XmlLimit.message())
    } else {
        Ok(text)
    }
}

/// Hand a text on, unless it has more bytes than an XML part can.
pub fn check_text(text: String) -> (r: Result<String, Error>)
    ensures
        match r {
            Ok(checked) => within_limit(text@) == Ok::<Seq<char>, Seq<char>>(checked@),
            Err(error) => within_limit(text@) == Err::<Seq<char>, Seq<char>>(error.message()),
        },
{
    if text.as_str().as_bytes().len() as u64 > XML_LIMIT {
        Err(Error::XmlLimit)
    } else {
        Ok(text)
    }
}

/// The text of an XML part of a package.
pub fn read_xml(data: &[u8], name: &str) -> (r: Result<String, Error>)
    ensures
        match r {
            Ok(text) => part_text(data@, name@) == Ok::<Seq<char>, Seq<char>>(text@),
            Err(error) => part_text(data@, name@) == Err::<Seq<char>, Seq<char>>(error.message()),
        },
{
    match read_text(data, name, XML_LIMIT + 1) {
        Err(reason) => Err(Error::Archive(reason)),
        Ok(text) => check_text(text),
    }
}

/// `s` without the slashes at its start.
pub open spec fn without_slashes(s: Seq<char>) -> Seq<char>
    decreases s.len(),
{
    if s.len() > 0 && s[0] == '/' {
        without_slashes(s.skip(1))
    } else {
        s
    }
}

/// The first `n` steps of a path, each going down or back up; none where they leave the
/// package.
pub open spec fn walked(steps: Seq<Seq<char>>, n: int) -> Option<Seq<Seq<char>>>
    decreases n,
{
    if n <= 0 {
        Some(Seq::empty())
    } else {
        match walked(steps, n - 1) {
            None => None,
            Some(path) => {
                let step = steps[n - 1];
                if step == ""@ || step == "."@ {
                    Some(path)
                } else if step == ".."@ {
                    if path.len() == 0 {
                        None
                    } else {
                        Some(path.drop_last())
                    }
                } else {
                    Some(path.push(step))
                }
            },
        }
    }
}

/// Steps with slashes between them.
pub open spec fn path_text(path: Seq<Seq<char>>) -> Seq<char>
    decreases path.len(),
{
    if path.len() == 0 {
        Seq::empty()
    } else if path.len() == 1 {
        path[0]
    } else {
        path_text(path.drop_last()) + "/"@ + path.last()
    }
}

/// The steps of a relationship target: from the package's root where it starts with a slash,
/// else from `base`.
pub open spec fn target_steps(base: Seq<char>, relative: Seq<char>) -> Seq<Seq<char>> {
    crate::text::parts(
        if relative.len() > 0 && relative[0] == '/' {
            without_slashes(relative)
        } else {
            base + relative
        },
        '/',
    )
}

/// The part that a relationship target names: from the package's root where it starts with
/// a slash, else from `base`.
pub open spec fn target_of(base: Seq<char>, relative: Seq<char>) -> Result<Seq<char>, Error> {
    let steps = target_steps(base, relative);
    match walked(steps, steps.len() as int) {
        None => Err(Error::RelationshipPath),
        Some(path) => Ok(path_text(path)),
    }
}

/// A step that goes down: a name.
pub open spec fn is_down(step: Seq<char>) -> bool {
    step != ""@ && step != "."@ && step != ".."@
}

/// How many of the first `n` steps go down.
pub open spec fn downs(steps: Seq<Seq<char>>, n: int) -> nat
    decreases n,
{
    if n <= 0 {
        0
    } else if is_down(steps[n - 1]) {
        downs(steps, n - 1) + 1
    } else {
        downs(steps, n - 1)
    }
}

/// How many of the first `n` steps go back up.
pub open spec fn ups(steps: Seq<Seq<char>>, n: int) -> nat
    decreases n,
{
    if n <= 0 {
        0
    } else if steps[n - 1] == ".."@ {
        ups(steps, n - 1) + 1
    } else {
        ups(steps, n - 1)
    }
}

/// A path leaves the package at a place: more steps went up than down.
pub open spec fn leaves_at(steps: Seq<Seq<char>>, n: int) -> bool {
    ups(steps, n) > downs(steps, n)
}

/// A walk has as many names as steps down less steps up, each of them one of the steps, and
/// stops where it leaves the package.
proof fn walk_counts(steps: Seq<Seq<char>>, n: int)
    requires
        0 <= n <= steps.len(),
    ensures
        walked(steps, n) is None <==> exists|m: int| 0 <= m <= n && leaves_at(steps, m),
        walked(steps, n) matches Some(path) ==> {
            &&& path.len() == downs(steps, n) - ups(steps, n)
            &&& forall|i: int|
                0 <= i < path.len() ==> is_down(#[trigger] path[i]) && steps.contains(path[i])
        },
    decreases n,
{
    reveal_strlit("");
    reveal_strlit(".");
    reveal_strlit("..");
    assert(".."@.len() == 2 && "."@.len() == 1 && ""@.len() == 0);
    if n > 0 {
        walk_counts(steps, n - 1);
        match walked(steps, n - 1) {
            None => {
                let m = choose|m: int| 0 <= m <= n - 1 && leaves_at(steps, m);
                assert(0 <= m <= n && leaves_at(steps, m));
            },
            Some(before) => {
                assert(!leaves_at(steps, n - 1));
                if walked(steps, n) is None {
                    assert(leaves_at(steps, n));
                } else {
                    let path = walked(steps, n)->0;
                    assert(!leaves_at(steps, n));
                    assert forall|m: int| 0 <= m <= n implies !leaves_at(steps, m) by {}
                    assert forall|i: int| 0 <= i < path.len() implies is_down(#[trigger] path[i])
                        && steps.contains(path[i]) by {
                        if i < before.len() {
                            assert(path[i] == before[i]);
                        } else {
                            assert(path[i] == steps[n - 1]);
                        }
                    }
                }
            },
        }
    } else {
        assert(!leaves_at(steps, 0));
    }
}

/// Names without slashes, with slashes between them, come apart again.
proof fn path_comes_apart(path: Seq<Seq<char>>)
    requires
        path.len() > 0,
        forall|k: int, i: int|
            0 <= k < path.len() && 0 <= i < path[k].len() ==> #[trigger] path[k][i] != '/',
    ensures
        crate::text::parts(path_text(path), '/') == path,
    decreases path.len(),
{
    reveal_strlit("/");
    assert("/"@ =~= seq!['/']);
    if path.len() == 1 {
        crate::text::first_of_is(path[0], '/', path[0].len() as int);
        assert(path =~= seq![path[0]]);
    } else {
        let front = path.drop_last();
        assert forall|k: int, i: int| 0 <= k < front.len() && 0 <= i < front[k].len() implies
            #[trigger] front[k][i] != '/' by {
            assert(path[k][i] != '/');
        }
        path_comes_apart(front);
        crate::text::parts_go_on(path_text(front), '/', path.last());
        assert(front.push(path.last()) =~= path);
    }
}

/// A relationship target is refused exactly where its path leaves the package. Any other
/// names a part by names alone: no step of it is empty, stays or goes up, so it neither
/// starts nor ends with a slash.
pub proof fn targets_stay_in_the_package(base: Seq<char>, relative: Seq<char>)
    ensures
        ({
            let steps = target_steps(base, relative);
            target_of(base, relative) is Err <==> exists|n: int|
                0 <= n <= steps.len() && leaves_at(steps, n)
        }),
        target_of(base, relative) matches Ok(part) ==> {
            ||| part.len() == 0
            ||| {
                &&& forall|k: int|
                    0 <= k < crate::text::parts(part, '/').len() ==> is_down(
                        #[trigger] crate::text::parts(part, '/')[k],
                    )
                &&& part[0] != '/'
                &&& part.last() != '/'
            }
        },
{
    let steps = target_steps(base, relative);
    walk_counts(steps, steps.len() as int);
    if let Ok(part) = target_of(base, relative) {
        let path = walked(steps, steps.len() as int)->0;
        assert forall|k: int, i: int| 0 <= k < path.len() && 0 <= i < path[k].len() implies
            #[trigger] path[k][i] != '/' by {
            let s = if relative.len() > 0 && relative[0] == '/' {
                without_slashes(relative)
            } else {
                base + relative
            };
            assert(steps.contains(path[k]));
            let j = choose|j: int| 0 <= j < steps.len() && steps[j] == path[k];
            crate::text::parts_are_free(s, '/', j);
        }
        if path.len() > 0 {
            path_comes_apart(path);
            path_has_no_outer_slash(path);
        }
    }
}

/// Names without slashes, with slashes between them, neither start nor end with one.
proof fn path_has_no_outer_slash(path: Seq<Seq<char>>)
    requires
        path.len() > 0,
        forall|k: int| 0 <= k < path.len() ==> is_down(#[trigger] path[k]),
        forall|k: int, i: int|
            0 <= k < path.len() && 0 <= i < path[k].len() ==> #[trigger] path[k][i] != '/',
    ensures
        path_text(path).len() > 0,
        path_text(path)[0] != '/',
        path_text(path).last() != '/',
    decreases path.len(),
{
    reveal_strlit("");
    let last = path.last();
    assert(is_down(path[path.len() - 1]));
    assert(last.len() > 0) by {
        if last.len() == 0 {
            assert(last =~= ""@);
        }
    }
    assert(path[path.len() - 1][last.len() - 1] != '/');
    assert(path[path.len() - 1][0] != '/');
    if path.len() > 1 {
        let front = path.drop_last();
        assert forall|k: int, i: int| 0 <= k < front.len() && 0 <= i < front[k].len() implies
            #[trigger] front[k][i] != '/' by {
            assert(path[k][i] != '/');
        }
        path_has_no_outer_slash(front);
        assert(path_text(path)[0] == path_text(front)[0]);
        assert(path_text(path).last() == last.last());
    }
}

/// A target that starts with a slash names a part from the package's root, whatever the base.
pub proof fn rooted_targets_ignore_the_base(base: Seq<char>, relative: Seq<char>)
    ensures
        target_of(base, "/"@ + relative) == target_of(""@, relative),
{
    reveal_strlit("/");
    reveal_strlit("");
    let rooted = "/"@ + relative;
    assert(rooted[0] == '/');
    assert(rooted.skip(1) =~= relative);
    assert(""@ + relative =~= relative);
}

fn strip_slashes(text: &str) -> (r: String)
    ensures
        r@ == without_slashes(text@),
{
    let all = chars(text);
    let mut i: usize = 0;
    assert(all@.skip(0) =~= all@);
    while i < all.len() && all[i] == '/'
        invariant
            i <= all@.len(),
            without_slashes(all@) == without_slashes(all@.skip(i as int)),
        decreases all@.len() - i,
    {
        assert(all@.skip(i as int).skip(1) =~= all@.skip(i + 1));
        i = i + 1;
    }
    assert(all@.subrange(i as int, all@.len() as int) =~= all@.skip(i as int));
    string(&all, i, all.len())
}

fn walk(steps: Vec<String>) -> (r: Option<Vec<String>>)
    ensures
        match r {
            Some(path) => walked(views(steps@), steps@.len() as int) == Some(views(path@)),
            None => walked(views(steps@), steps@.len() as int) is None,
        },
{
    let ghost all = views(steps@);
    let mut path: Vec<String> = Vec::new();
    let mut i: usize = 0;
    assert(views(path@) =~= Seq::empty());
    while i < steps.len()
        invariant
            all == views(steps@),
            i <= steps@.len(),
            walked(all, i as int) == Some(views(path@)),
        decreases steps@.len() - i,
    {
        let ghost before = views(path@);
        let step = steps[i].as_str();
        assert(all[i as int] == step@);
        if same(step, "") || same(step, ".") {
        } else if same(step, "..") {
            if path.len() == 0 {
                proof {
                    walk_stops(all, i + 1, all.len() as int);
                }
                return None;
            }
            path.pop();
            assert(views(path@) =~= before.drop_last());
        } else {
            path.push(step.to_owned());
            assert(views(path@) =~= before.push(step@));
        }
        i = i + 1;
    }
    Some(path)
}

proof fn walk_stops(steps: Seq<Seq<char>>, i: int, n: int)
    requires
        0 <= i <= n,
        walked(steps, i) is None,
    ensures
        walked(steps, n) is None,
    decreases n - i,
{
    if i < n {
        walk_stops(steps, i, n - 1);
    }
}

fn join_path(path: &Vec<String>) -> (r: String)
    ensures
        r@ == path_text(views(path@)),
{
    let ghost all = views(path@);
    let mut text = String::new();
    let mut i: usize = 0;
    assert(all.take(0) =~= Seq::empty());
    while i < path.len()
        invariant
            all == views(path@),
            i <= path@.len(),
            text@ == path_text(all.take(i as int)),
        decreases path@.len() - i,
    {
        proof {
            assert(all.take(i + 1).drop_last() =~= all.take(i as int));
        }
        if i > 0 {
            text.append("/");
        }
        text.append(path[i].as_str());
        proof {
            assert(all[i as int] == path@[i as int]@);
            assert(text@ =~= path_text(all.take(i + 1)));
        }
        i = i + 1;
    }
    assert(all.take(all.len() as int) =~= all);
    text
}

/// The part that a relationship target names.
pub fn target(base: &str, relative: &str) -> (r: Result<String, Error>)
    ensures
        match r {
            Ok(part) => target_of(base@, relative@) == Ok::<Seq<char>, Error>(part@),
            Err(error) => target_of(base@, relative@) == Err::<Seq<char>, Error>(error),
        },
{
    proof {
        reveal_strlit("/");
        assert(relative@.len() > 0 ==> relative@.subrange(0, 1) =~= seq![relative@[0]]);
        assert("/"@ =~= seq!['/']);
        if relative@.len() > 0 {
            assert((relative@.subrange(0, 1) == "/"@) == (relative@[0] == '/')) by {
                if relative@.subrange(0, 1) == "/"@ {
                    assert(relative@.subrange(0, 1)[0] == '/');
                }
            }
        }
    }
    let all = if has_start(relative, "/") {
        strip_slashes(relative)
    } else {
        joined(base, relative)
    };
    match walk(split(all.as_str(), '/')) {
        None => Err(Error::RelationshipPath),
        Some(path) => Ok(join_path(&path)),
    }
}

/// The format of a file with this extension, in any case.
pub open spec fn format_of(extension: Seq<char>) -> Option<Format> {
    let small = extension.map_values(|c: char| crate::text::small(c));
    if small == "xlsx"@ {
        Some(Format::Xlsx)
    } else if small == "ods"@ {
        Some(Format::Ods)
    } else {
        None
    }
}

/// The format of a file with this extension, in any case.
pub fn workbook_format(extension: &str) -> (r: Option<Format>)
    ensures
        r == format_of(extension@),
{
    let all = small_letters(extension);
    let small = string(&all, 0, all.len());
    assert(all@.subrange(0, all@.len() as int) =~= all@);
    if same(small.as_str(), "xlsx") {
        Some(Format::Xlsx)
    } else if same(small.as_str(), "ods") {
        Some(Format::Ods)
    } else {
        None
    }
}

/// Sheet names with the parts that hold them.
pub open spec fn pair_texts(list: Seq<(String, String)>) -> Seq<(Seq<char>, Seq<char>)> {
    list.map_values(|p: (String, String)| (p.0@, p.1@))
}

/// The list is made, or refused, as the specification has it.
pub open spec fn are_parts(
    r: Result<Vec<(String, String)>, Error>,
    expected: Result<Seq<(Seq<char>, Seq<char>)>, Error>,
) -> bool {
    match r {
        Ok(list) => expected == Ok::<Seq<(Seq<char>, Seq<char>)>, Error>(pair_texts(list@)),
        Err(error) => expected == Err::<Seq<(Seq<char>, Seq<char>)>, Error>(error),
    }
}

/// The tables of an ODS document from node `i` on, each in the same part.
pub open spec fn tables_from(doc: Xml, i: int) -> Result<Seq<(Seq<char>, Seq<char>)>, Error>
    decreases doc.nodes@.len() - i,
{
    if i >= doc.nodes@.len() {
        Ok(Seq::empty())
    } else if !crate::tree::is_tag(doc.nodes@[i], TABLE@, "table"@) {
        tables_from(doc, i + 1)
    } else {
        match value_in(doc, i, TABLE@, "name"@) {
            None => Err(Error::UnnamedOdsSheet),
            Some(name) => match tables_from(doc, i + 1) {
                Err(error) => Err(error),
                Ok(rest) => Ok(seq![(name, "content.xml"@)] + rest),
            },
        }
    }
}

/// The sheets of an ODS document, in order.
pub fn ods_parts(doc: &Xml) -> (r: Result<Vec<(String, String)>, Error>)
    requires
        doc.attributes@.len() == doc.nodes@.len(),
    ensures
        are_parts(r, tables_from(*doc, 0)),
{
    let mut list: Vec<(String, String)> = Vec::new();
    let mut i: usize = 0;
    let ghost whole = tables_from(*doc, 0);
    proof {
        assert(pair_texts(list@) =~= Seq::empty());
        if let Ok(all) = whole {
            assert(pair_texts(list@) + all =~= all);
        }
    }
    while i < doc.nodes.len()
        invariant
            doc.attributes@.len() == doc.nodes@.len(),
            i <= doc.nodes@.len(),
            whole == tables_from(*doc, 0),
            match tables_from(*doc, i as int) {
                Ok(rest) => whole == Ok::<Seq<(Seq<char>, Seq<char>)>, Error>(
                    pair_texts(list@) + rest,
                ),
                Err(error) => whole == Err::<Seq<(Seq<char>, Seq<char>)>, Error>(error),
            },
        decreases doc.nodes@.len() - i,
    {
        if doc.has_tag(i, TABLE, "table") {
            match doc.attribute_in(i, TABLE, "name") {
                None => {
                    return Err(Error::UnnamedOdsSheet);
                },
                Some(name) => {
                    let ghost before = pair_texts(list@);
                    list.push((name.value.clone(), "content.xml".to_owned()));
                    proof {
                        let added = (name.value@, "content.xml"@);
                        assert(pair_texts(list@) =~= before.push(added));
                        if let Ok(rest) = tables_from(*doc, i + 1) {
                            assert(before + (seq![added] + rest) =~= pair_texts(list@) + rest);
                        }
                    }
                },
            }
        }
        i = i + 1;
    }
    assert(pair_texts(list@) + Seq::<(Seq<char>, Seq<char>)>::empty() =~= pair_texts(list@));
    Ok(list)
}

/// Node `i` is the relationship of the workbook itself.
pub open spec fn is_book_relationship(doc: Xml, i: int) -> bool {
    value(doc, i, "Type"@) matches Some(kind) && crate::text::ends_with(kind, "/officeDocument"@)
}

/// The first relationship of the workbook itself from node `i` on.
pub open spec fn book_relationship(doc: Xml, i: int) -> int
    decreases doc.nodes@.len() - i,
{
    if i >= doc.nodes@.len() {
        doc.nodes@.len() as int
    } else if is_book_relationship(doc, i) {
        i
    } else {
        book_relationship(doc, i + 1)
    }
}

/// The part of the workbook itself, by the package's relationships.
pub open spec fn book_of(doc: Xml) -> Result<Seq<char>, Error> {
    let i = book_relationship(doc, 0);
    if i >= doc.nodes@.len() {
        Err(Error::MissingBookRelationship)
    } else if value(doc, i, "TargetMode"@) == Some("External"@) {
        Err(Error::OutsideBook)
    } else {
        match value(doc, i, "Target"@) {
            None => Err(Error::MissingBookTarget),
            Some(relative) => target_of(Seq::empty(), relative),
        }
    }
}

fn is_value(doc: &Xml, i: usize, name: &str, text: &str) -> (r: bool)
    requires
        i < doc.attributes@.len(),
    ensures
        r == (value(*doc, i as int, name@) == Some(text@)),
{
    match doc.attribute(i, name) {
        None => false,
        Some(a) => same(a.value.as_str(), text),
    }
}

/// The part of the workbook itself, by the package's relationships.
pub fn book_part(doc: &Xml) -> (r: Result<String, Error>)
    requires
        doc.attributes@.len() == doc.nodes@.len(),
    ensures
        match r {
            Ok(part) => book_of(*doc) == Ok::<Seq<char>, Error>(part@),
            Err(error) => book_of(*doc) == Err::<Seq<char>, Error>(error),
        },
{
    let mut i: usize = 0;
    while i < doc.nodes.len()
        invariant
            doc.attributes@.len() == doc.nodes@.len(),
            i <= doc.nodes@.len(),
            book_relationship(*doc, 0) == book_relationship(*doc, i as int),
        decreases doc.nodes@.len() - i,
    {
        let found = match doc.attribute(i, "Type") {
            None => false,
            Some(a) => has_end(a.value.as_str(), "/officeDocument"),
        };
        if found {
            if is_value(doc, i, "TargetMode", "External") {
                return Err(Error::OutsideBook);
            }
            proof {
                reveal_strlit("");
                assert(""@ =~= Seq::<char>::empty());
            }
            return match doc.attribute(i, "Target") {
                None => Err(Error::MissingBookTarget),
                Some(a) => target("", a.value.as_str()),
            };
        }
        i = i + 1;
    }
    Err(Error::MissingBookRelationship)
}

/// The first relationship with this identifier from node `i` on.
pub open spec fn relationship(rels: Xml, id: Seq<char>, i: int) -> int
    decreases rels.nodes@.len() - i,
{
    if i >= rels.nodes@.len() {
        rels.nodes@.len() as int
    } else if value(rels, i, "Id"@) == Some(id) {
        i
    } else {
        relationship(rels, id, i + 1)
    }
}

/// The part that the sheet of node `i` names through its relationship.
pub open spec fn sheet_part(book: Xml, rels: Xml, base: Seq<char>, i: int) -> Result<
    (Seq<char>, Seq<char>),
    Error,
> {
    match value(book, i, "name"@) {
        None => Err(Error::UnnamedXlsxSheet),
        Some(name) => match value(book, i, "id"@) {
            None => Err(Error::MissingSheetRelationship),
            Some(id) => {
                let rel = relationship(rels, id, 0);
                if rel >= rels.nodes@.len() {
                    Err(Error::MissingWorksheetRelationship)
                } else if value(rels, rel, "TargetMode"@) == Some("External"@) {
                    Err(Error::OutsideWorksheet)
                } else {
                    match value(rels, rel, "Target"@) {
                        None => Err(Error::MissingWorksheetTarget),
                        Some(relative) => match target_of(base, relative) {
                            Err(error) => Err(error),
                            Ok(part) => Ok((name, part)),
                        },
                    }
                }
            },
        },
    }
}

/// The sheets of an XLSX workbook from node `i` on.
pub open spec fn sheets_from(book: Xml, rels: Xml, base: Seq<char>, i: int) -> Result<
    Seq<(Seq<char>, Seq<char>)>,
    Error,
>
    decreases book.nodes@.len() - i,
{
    if i >= book.nodes@.len() {
        Ok(Seq::empty())
    } else if book.nodes@[i].name@ != "sheet"@ {
        sheets_from(book, rels, base, i + 1)
    } else {
        match sheet_part(book, rels, base, i) {
            Err(error) => Err(error),
            Ok(part) => match sheets_from(book, rels, base, i + 1) {
                Err(error) => Err(error),
                Ok(rest) => Ok(seq![part] + rest),
            },
        }
    }
}

fn find_sheet_part(book: &Xml, rels: &Xml, base: &str, i: usize) -> (r: Result<
    (String, String),
    Error,
>)
    requires
        i < book.attributes@.len(),
        rels.attributes@.len() == rels.nodes@.len(),
    ensures
        match r {
            Ok((name, part)) => sheet_part(*book, *rels, base@, i as int) == Ok::<
                (Seq<char>, Seq<char>),
                Error,
            >((name@, part@)),
            Err(error) => sheet_part(*book, *rels, base@, i as int) == Err::<
                (Seq<char>, Seq<char>),
                Error,
            >(error),
        },
{
    let name = match book.attribute(i, "name") {
        Some(a) => a.value.clone(),
        None => {
            return Err(Error::UnnamedXlsxSheet);
        },
    };
    let id = match book.attribute(i, "id") {
        Some(a) => a.value.as_str(),
        None => {
            return Err(Error::MissingSheetRelationship);
        },
    };
    let mut k: usize = 0;
    while k < rels.nodes.len() && !is_value(rels, k, "Id", id)
        invariant
            rels.attributes@.len() == rels.nodes@.len(),
            k <= rels.nodes@.len(),
            relationship(*rels, id@, 0) == relationship(*rels, id@, k as int),
        decreases rels.nodes@.len() - k,
    {
        k = k + 1;
    }
    if k >= rels.nodes.len() {
        return Err(Error::MissingWorksheetRelationship);
    }
    if is_value(rels, k, "TargetMode", "External") {
        return Err(Error::OutsideWorksheet);
    }
    match rels.attribute(k, "Target") {
        None => Err(Error::MissingWorksheetTarget),
        Some(a) => match target(base, a.value.as_str()) {
            Err(error) => Err(error),
            Ok(part) => Ok((name, part)),
        },
    }
}

/// The sheets of an XLSX workbook with the parts that hold them, in order.
pub fn xlsx_parts(book: &Xml, rels: &Xml, base: &str) -> (r: Result<Vec<(String, String)>, Error>)
    requires
        book.attributes@.len() == book.nodes@.len(),
        rels.attributes@.len() == rels.nodes@.len(),
    ensures
        are_parts(r, sheets_from(*book, *rels, base@, 0)),
{
    let mut list: Vec<(String, String)> = Vec::new();
    let mut i: usize = 0;
    let ghost whole = sheets_from(*book, *rels, base@, 0);
    proof {
        assert(pair_texts(list@) =~= Seq::empty());
        if let Ok(all) = whole {
            assert(pair_texts(list@) + all =~= all);
        }
    }
    while i < book.nodes.len()
        invariant
            book.attributes@.len() == book.nodes@.len(),
            rels.attributes@.len() == rels.nodes@.len(),
            i <= book.nodes@.len(),
            whole == sheets_from(*book, *rels, base@, 0),
            match sheets_from(*book, *rels, base@, i as int) {
                Ok(rest) => whole == Ok::<Seq<(Seq<char>, Seq<char>)>, Error>(
                    pair_texts(list@) + rest,
                ),
                Err(error) => whole == Err::<Seq<(Seq<char>, Seq<char>)>, Error>(error),
            },
        decreases book.nodes@.len() - i,
    {
        if book.is_named(i, "sheet") {
            match find_sheet_part(book, rels, base, i) {
                Err(error) => {
                    return Err(error);
                },
                Ok(found) => {
                    let ghost before = pair_texts(list@);
                    let ghost added = (found.0@, found.1@);
                    list.push(found);
                    proof {
                        assert(pair_texts(list@) =~= before.push(added));
                        if let Ok(rest) = sheets_from(*book, *rels, base@, i + 1) {
                            assert(before + (seq![added] + rest) =~= pair_texts(list@) + rest);
                        }
                    }
                },
            }
        }
        i = i + 1;
    }
    assert(pair_texts(list@) + Seq::<(Seq<char>, Seq<char>)>::empty() =~= pair_texts(list@));
    Ok(list)
}

/// Where the name of a part starts after its last slash.
pub open spec fn name_start(part: Seq<char>, n: int) -> int
    decreases n,
{
    if n <= 0 {
        0
    } else if part[n - 1] == '/' {
        n
    } else {
        name_start(part, n - 1)
    }
}

/// The directory of a part, with a slash at its end where it has one.
pub open spec fn directory(part: Seq<char>) -> Seq<char> {
    part.take(name_start(part, part.len() as int))
}

/// The part that holds the relationships of a part.
pub open spec fn relationships_of(part: Seq<char>) -> Seq<char> {
    directory(part) + "_rels/"@ + part.skip(name_start(part, part.len() as int)) + ".rels"@
}

fn find_name(all: &Vec<char>) -> (r: usize)
    ensures
        r == name_start(all@, all@.len() as int),
        r <= all@.len(),
{
    let mut n: usize = all.len();
    while n > 0 && all[n - 1] != '/'
        invariant
            n <= all@.len(),
            name_start(all@, all@.len() as int) == name_start(all@, n as int),
        decreases n,
    {
        n = n - 1;
    }
    n
}

/// The document of a part: what a parse of its text gives.
pub open spec fn is_document(data: Seq<u8>, name: Seq<char>, doc: Result<Xml, Error>) -> bool {
    match part_text(data, name) {
        Err(reason) => doc matches Err(error) && error.message() == reason,
        Ok(text) => match doc {
            Ok(xml) => crate::xml::xml_error(text) is None && xml.parsed_from(text) && xml.wf(
                utf8(text).len() as int,
            ),
            Err(error) => crate::xml::xml_error(text) == Some(error.message()),
        },
    }
}

/// The document of a part of a package.
pub fn read_document(data: &[u8], name: &str) -> (r: Result<Xml, Error>)
    ensures
        is_document(data@, name@, r),
{
    match read_xml(data, name) {
        Err(error) => Err(error),
        Ok(text) => parse_xml(text.as_str()),
    }
}

/// What a list of parts shows, with the message of an error.
pub open spec fn parts_view(r: Result<Vec<(String, String)>, Error>) -> Result<
    Seq<(Seq<char>, Seq<char>)>,
    Seq<char>,
> {
    match r {
        Ok(list) => Ok(pair_texts(list@)),
        Err(error) => Err(error.message()),
    }
}

/// A result with the message of its error.
pub open spec fn with_message<T>(r: Result<T, Error>) -> Result<T, Seq<char>> {
    match r {
        Ok(value) => Ok(value),
        Err(error) => Err(error.message()),
    }
}

/// The sheets of an XLSX workbook, by the documents of its relationships, of the workbook's
/// relationships and of the workbook, each of which is only read where the ones before it
/// are.
pub open spec fn xlsx_sheets(
    root: Result<Xml, Error>,
    rels: Result<Xml, Error>,
    book: Result<Xml, Error>,
) -> Result<Seq<(Seq<char>, Seq<char>)>, Seq<char>> {
    match root {
        Err(error) => Err(error.message()),
        Ok(root) => match book_of(root) {
            Err(error) => Err(error.message()),
            Ok(part) => match rels {
                Err(error) => Err(error.message()),
                Ok(rels) => match book {
                    Err(error) => Err(error.message()),
                    Ok(book) => with_message(sheets_from(book, rels, directory(part), 0)),
                },
            },
        },
    }
}

/// The documents are those that an XLSX package leads to.
pub open spec fn are_documents(
    data: Seq<u8>,
    root: Result<Xml, Error>,
    rels: Result<Xml, Error>,
    book: Result<Xml, Error>,
) -> bool {
    &&& is_document(data, "_rels/.rels"@, root)
    &&& root matches Ok(doc) ==> (book_of(doc) matches Ok(part) ==> is_document(
        data,
        relationships_of(part),
        rels,
    ) && is_document(data, part, book))
}

/// The sheets of a package with the parts that hold them.
pub open spec fn are_sheets(
    data: Seq<u8>,
    format: Format,
    r: Result<Seq<(Seq<char>, Seq<char>)>, Seq<char>>,
) -> bool {
    match format {
        Format::Ods => exists|doc: Result<Xml, Error>| #[trigger]
            is_document(data, "content.xml"@, doc) && r == match doc {
                Err(error) => Err(error.message()),
                Ok(xml) => with_message(tables_from(xml, 0)),
            },
        Format::Xlsx => exists|root: Result<Xml, Error>, rels: Result<Xml, Error>, book: Result<
            Xml,
            Error,
        >| #[trigger]
            are_documents(data, root, rels, book) && r == xlsx_sheets(root, rels, book),
    }
}

/// The sheets of a package with the parts that hold them, in order.
pub fn parts(data: &[u8], format: Format) -> (r: Result<Vec<(String, String)>, Error>)
    ensures
        are_sheets(data@, format, parts_view(r)),
{
    match format {
        Format::Ods => {
            let doc = read_document(data, "content.xml");
            assert(is_document(data@, "content.xml"@, doc));
            match doc {
                Err(error) => Err(error),
                Ok(xml) => ods_parts(&xml),
            }
        },
        Format::Xlsx => book_sheets(data),
    }
}

fn book_sheets(data: &[u8]) -> (r: Result<Vec<(String, String)>, Error>)
    ensures
        are_sheets(data@, Format::Xlsx, parts_view(r)),
{
    let root = read_document(data, "_rels/.rels");
    let ghost first = root;
    let part = match root {
        Err(error) => {
            assert(are_documents(data@, first, first, first));
            return Err(error);
        },
        Ok(doc) => match book_part(&doc) {
            Ok(part) => part,
            Err(error) => {
                assert(are_documents(data@, first, first, first));
                return Err(error);
            },
        },
    };
    let all = chars(part.as_str());
    let n = find_name(&all);
    let base = string(&all, 0, n);
    let mut path = joined(base.as_str(), "_rels/");
    path.append(string(&all, n, all.len()).as_str());
    path.append(".rels");
    proof {
        assert(all@.subrange(0, n as int) =~= directory(part@));
        assert(all@.subrange(n as int, all@.len() as int) =~= part@.skip(n as int));
        assert(path@ =~= relationships_of(part@));
    }
    let rels = read_document(data, path.as_str());
    let book = read_document(data, part.as_str());
    assert(are_documents(data@, first, rels, book));
    match rels {
        Err(error) => Err(error),
        Ok(rels) => match book {
            Err(error) => Err(error),
            Ok(book) => xlsx_parts(&book, &rels, base.as_str()),
        },
    }
}

/// The first of each pair.
pub open spec fn firsts(list: Seq<(Seq<char>, Seq<char>)>) -> Seq<Seq<char>> {
    list.map_values(|p: (Seq<char>, Seq<char>)| p.0)
}

/// The names of the sheets that a list of parts gives.
pub fn part_names(list: &Vec<(String, String)>) -> (r: Vec<String>)
    ensures
        views(r@) == firsts(pair_texts(list@)),
{
    let ghost all = firsts(pair_texts(list@));
    let mut names: Vec<String> = Vec::new();
    let mut i: usize = 0;
    assert(views(names@) =~= all.take(0));
    while i < list.len()
        invariant
            all == firsts(pair_texts(list@)),
            i <= list@.len(),
            views(names@) == all.take(i as int),
        decreases list@.len() - i,
    {
        let ghost before = views(names@);
        names.push(list[i].0.clone());
        i = i + 1;
        assert(views(names@) =~= before.push(all[i - 1]));
        assert(views(names@) =~= all.take(i as int));
    }
    assert(all.take(all.len() as int) =~= all);
    names
}

/// The outcome of listing the sheets of a file.
pub open spec fn are_names(
    data: Seq<u8>,
    extension: Seq<char>,
    r: Result<Seq<Seq<char>>, Seq<char>>,
) -> bool {
    match format_of(extension) {
        None => r == Err::<Seq<Seq<char>>, Seq<char>>(Error::SheetsNeedWorkbook.message()),
        Some(format) => match archive_refusal(data) {
            Some(reason) => r == Err::<Seq<Seq<char>>, Seq<char>>(reason),
            None => exists|list: Result<Seq<(Seq<char>, Seq<char>)>, Seq<char>>| #[trigger]
                are_sheets(data, format, list) && r == match list {
                    Ok(all) => Ok(firsts(all)),
                    Err(reason) => Err(reason),
                },
        },
    }
}

/// The names of the sheets of a workbook with this extension, in order.
pub fn sheet_names(data: &[u8], extension: &str) -> (r: Result<Vec<String>, Error>)
    ensures
        are_names(
            data@,
            extension@,
            match r {
                Ok(names) => Ok(views(names@)),
                Err(error) => Err(error.message()),
            },
        ),
{
    match workbook_format(extension) {
        None => Err(Error::SheetsNeedWorkbook),
        Some(format) => match archive(data) {
            Err(error) => Err(error),
            Ok(_) => {
                let list = parts(data, format);
                assert(are_sheets(data@, format, parts_view(list)));
                match list {
                    Ok(list) => Ok(part_names(&list)),
                    Err(error) => Err(error),
                }
            },
        },
    }
}

} // verus!
