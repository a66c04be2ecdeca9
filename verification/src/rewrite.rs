//! Writing a package anew with one part replaced.
use crate::error::Error;
use crate::package::{
    archive, archive_refusal, listed_names, part_text, zip_members, zip_text, Listed, XML_LIMIT,
};
use crate::text::{same, views};
use crate::xml::utf8;
use std::io::{Cursor, Write};
use vstd::prelude::*;
use zip::write::SimpleFileOptions;
use zip::{ZipArchive, ZipWriter};

verus! {

/// The largest number in a field of a plain directory: of bytes of a name, or of members.
pub const FIELD_MAX: usize = 65_535;

/// An archive that is being written in memory: a `zip::ZipWriter`.
#[verifier::external_body]
pub struct PackageWriter {
    zip: ZipWriter<Cursor<Vec<u8>>>,
}

/// A member of an archive by its place in the directory, under its name, compression, time
/// and mode: with its own content, or with another text.
#[verifier::ext_equal]
pub struct Put {
    pub from: Seq<u8>,
    pub index: int,
    pub text: Option<Seq<char>>,
}

/// The members that were put into an archive, in order.
pub uninterp spec fn members_of(out: PackageWriter) -> Seq<Put>;

/// The comment that an archive was given.
pub uninterp spec fn comment_of(out: PackageWriter) -> Seq<u8>;

/// The comment of a ZIP archive, or why it is none.
pub uninterp spec fn zip_comment(data: Seq<u8>) -> Result<Seq<u8>, Seq<char>>;

/// Why a member that is copied does not go into an archive with this comment and these
/// members, if it does not.
pub uninterp spec fn zip_copied(comment: Seq<u8>, members: Seq<Put>, put: Put) -> Option<Seq<char>>;

/// Why a member with another text does not go into an archive with this comment and these
/// members, if it does not.
pub uninterp spec fn zip_written(comment: Seq<u8>, members: Seq<Put>, put: Put) -> Option<
    Seq<char>,
>;

/// The bytes of an archive with this comment and these members, or why it is not written.
pub uninterp spec fn zip_bytes(comment: Seq<u8>, members: Seq<Put>) -> Result<
    Seq<u8>,
    Seq<char>,
>;

/// The member goes into the archive, or the reason says why it does not.
pub open spec fn is_put(
    before: PackageWriter,
    after: PackageWriter,
    put: Put,
    refusal: Option<Seq<char>>,
    r: Result<(), String>,
) -> bool {
    match r {
        Ok(()) => {
            &&& refusal is None
            &&& members_of(after) == members_of(before).push(put)
            &&& comment_of(after) == comment_of(before)
        },
        Err(reason) => refusal == Some(reason@),
    }
}

/// What bytes or the reason for none hold.
pub open spec fn bytes_result(r: Result<Vec<u8>, String>) -> Result<Seq<u8>, Seq<char>> {
    match r {
        Ok(bytes) => Ok(bytes@),
        Err(reason) => Err(reason@),
    }
}

/// Both outcomes are an error with the same reason, or neither is one.
pub open spec fn same_refusal(
    comment: Result<Seq<u8>, Seq<char>>,
    members: Result<Seq<Listed>, Seq<char>>,
) -> bool {
    match (comment, members) {
        (Ok(_), Ok(_)) => true,
        (Err(a), Err(b)) => a == b,
        _ => false,
    }
}

/// `zip::ZipArchive::new` reads an archive and `zip::ZipArchive::comment` gives its comment.
/// The outcome depends on the bytes alone, and is an error exactly where that of listing the
/// members is, with the same reason.
#[verifier::external_body]
fn read_comment(data: &[u8]) -> (r: Result<Vec<u8>, String>)
    ensures
        bytes_result(r) == zip_comment(data@),
        same_refusal(bytes_result(r), zip_members(data@)),
{
    match ZipArchive::new(Cursor::new(data)) {
        Ok(input) => Ok(input.comment().to_vec()),
        Err(error) => Err(error.to_string()),
    }
}

/// `zip::ZipWriter::new` starts an archive without members, and
/// `zip::ZipWriter::set_raw_comment` gives it a comment.
#[verifier::external_body]
fn start_package(comment: &[u8]) -> (r: PackageWriter)
    ensures
        members_of(r) == Seq::<Put>::empty(),
        comment_of(r) == comment@,
{
    let mut zip = ZipWriter::new(Cursor::new(Vec::new()));
    zip.set_raw_comment(comment.into());
    PackageWriter { zip }
}

/// The name of a member.
pub open spec fn put_name(put: Put) -> Seq<char> {
    zip_members(put.from)->Ok_0[put.index]->Ok_0.0
}

/// The name of a member has as many bytes as the directory of an archive can tell.
pub open spec fn name_fits(data: Seq<u8>, index: int) -> bool {
    utf8(listed_names(zip_members(data)->Ok_0)[index]).len() <= FIELD_MAX
}

/// `zip::ZipWriter::raw_copy_file` adds the member that `zip::ZipArchive::by_index` gives,
/// with its name, compressed bytes, checksum, time and mode, and no other data. Whether it
/// does depends on what the archive holds, the bytes and the index alone. It panics on a
/// name that does not fit.
#[verifier::external_body]
fn copy_member(out: &mut PackageWriter, data: &[u8], index: usize) -> (r: Result<(), String>)
    requires
        name_fits(data@, index as int),
    ensures
        ({
            let put = Put { from: data@, index: index as int, text: None };
            let refusal = zip_copied(comment_of(*old(out)), members_of(*old(out)), put);
            is_put(*old(out), *final(out), put, refusal, r)
        }),
{
    let mut input = ZipArchive::new(Cursor::new(data)).map_err(|error| error.to_string())?;
    let member = input.by_index(index).map_err(|error| error.to_string())?;
    out.zip.raw_copy_file(member).map_err(|error| error.to_string())
}

/// `zip::ZipWriter::start_file` adds a member with the name, compression, time and mode of
/// the one that `zip::ZipArchive::by_index` gives, and `std::io::Write::write_all` writes
/// the bytes of the text to it. Whether they do depends on what the archive holds, the
/// bytes, the index and the text alone. The first panics on a name that does not fit.
#[verifier::external_body]
fn write_member(out: &mut PackageWriter, data: &[u8], index: usize, text: &str) -> (r: Result<
    (),
    String,
>)
    requires
        name_fits(data@, index as int),
    ensures
        ({
            let put = Put { from: data@, index: index as int, text: Some(text@) };
            let refusal = zip_written(comment_of(*old(out)), members_of(*old(out)), put);
            is_put(*old(out), *final(out), put, refusal, r)
        }),
{
    let mut input = ZipArchive::new(Cursor::new(data)).map_err(|error| error.to_string())?;
    let member = input.by_index(index).map_err(|error| error.to_string())?;
    let mut options = SimpleFileOptions::default().compression_method(member.compression());
    if let Some(time) = member.last_modified() {
        options = options.last_modified_time(time);
    }
    if let Some(mode) = member.unix_mode() {
        options = options.unix_permissions(mode);
    }
    out.zip.start_file(member.name(), options).map_err(|error| error.to_string())?;
    out.zip.write_all(text.as_bytes()).map_err(|error| error.to_string())
}

/// A finished archive that needs no wider directory lists its members by name and in order,
/// and a member with another text reads back.
pub open spec fn reads_back(bytes: Seq<u8>, members: Seq<Put>) -> bool {
    members.len() < FIELD_MAX && bytes.len() < u32::MAX ==> {
        &&& zip_members(bytes) is Ok
        &&& zip_members(bytes)->Ok_0.len() == members.len()
        &&& forall|i: int|
            0 <= i < members.len() ==> ((#[trigger] zip_members(bytes)->Ok_0[i]) matches Ok(m)
                && m.0 == put_name(members[i]))
        &&& forall|i: int, limit: u64|
            0 <= i < members.len() && (members[i].text matches Some(text) && utf8(text).len()
                <= limit) ==> #[trigger] zip_text(bytes, put_name(members[i]), limit) == Ok::<
                Seq<char>,
                Seq<char>,
            >(members[i].text->0)
    }
}

/// `zip::ZipWriter::finish` writes the directory of an archive and gives its bytes. They
/// depend on the members and the comment alone. Without a comment, `zip::ZipArchive` reads
/// the members back in order; what it reads behind a comment is not stated, as one may look
/// like the end of a directory.
#[verifier::external_body]
fn finish_package(out: PackageWriter) -> (r: Result<Vec<u8>, String>)
    ensures
        bytes_result(r) == zip_bytes(comment_of(out), members_of(out)),
        comment_of(out).len() == 0 ==> (r matches Ok(bytes) ==> reads_back(
            bytes@,
            members_of(out),
        )),
{
    match out.zip.finish() {
        Ok(bytes) => Ok(bytes.into_inner()),
        Err(error) => Err(error.to_string()),
    }
}

/// The members of a package in order, each as it is but for the part, which holds the text.
pub open spec fn with_part(
    data: Seq<u8>,
    names: Seq<Seq<char>>,
    part: Seq<char>,
    text: Seq<char>,
) -> Seq<Put> {
    Seq::new(
        names.len(),
        |i: int|
            Put {
                from: data,
                index: i,
                text: if names[i] == part {
                    Some(text)
                } else {
                    None
                },
            },
    )
}

/// Why the first `n` members do not go into an archive one after another, if they do not.
pub open spec fn put_refusal(comment: Seq<u8>, members: Seq<Put>, n: int) -> Option<Seq<char>>
    decreases n,
{
    if n <= 0 {
        None
    } else {
        match put_refusal(comment, members, n - 1) {
            Some(reason) => Some(reason),
            None => match members[n - 1].text {
                Some(_) => zip_written(comment, members.take(n - 1), members[n - 1]),
                None => zip_copied(comment, members.take(n - 1), members[n - 1]),
            },
        }
    }
}

/// The bytes of a package with the text in place of a part: its members in order, each as it
/// is but for the part, and its comment.
pub open spec fn rewritten_bytes(data: Seq<u8>, part: Seq<char>, text: Seq<char>) -> Result<
    Seq<u8>,
    Seq<char>,
> {
    match archive_refusal(data) {
        Some(reason) => Err(reason),
        None => {
            let comment = zip_comment(data)->Ok_0;
            let members = with_part(data, listed_names(zip_members(data)->Ok_0), part, text);
            match put_refusal(comment, members, members.len() as int) {
                Some(reason) => Err(reason),
                None => zip_bytes(comment, members),
            }
        },
    }
}

/// Bytes, with the message of an error.
pub open spec fn bytes_message(r: Result<Vec<u8>, Error>) -> Result<Seq<u8>, Seq<char>> {
    match r {
        Ok(bytes) => Ok(bytes@),
        Err(error) => Err(error.message()),
    }
}

/// The names of all members fit.
pub open spec fn names_fit(data: Seq<u8>) -> bool {
    forall|i: int|
        0 <= i < listed_names(zip_members(data)->Ok_0).len() ==> #[trigger] name_fits(data, i)
}

/// Whether the names of all members of a package fit; those of one that is refused do not
/// matter.
pub fn check_names(data: &[u8]) -> (r: bool)
    ensures
        r == (archive_refusal(data@) is None ==> names_fit(data@)),
{
    let names = match archive(data) {
        Ok(names) => names,
        Err(_) => {
            return true;
        },
    };
    let ghost list = listed_names(zip_members(data@)->Ok_0);
    let mut i: usize = 0;
    while i < names.len()
        invariant
            archive_refusal(data@) is None,
            list == listed_names(zip_members(data@)->Ok_0),
            list == views(names@),
            i <= names@.len(),
            forall|k: int| 0 <= k < i ==> #[trigger] name_fits(data@, k),
        decreases names@.len() - i,
    {
        assert(list[i as int] == names@[i as int]@);
        if names[i].as_str().as_bytes().len() > FIELD_MAX {
            assert(!name_fits(data@, i as int));
            return false;
        }
        i = i + 1;
    }
    true
}

/// Reading a package with a replaced part gives the names of its members as they were, and
/// the text of the part. A package that has a comment, or more members or bytes than a plain
/// directory can tell, is left out.
pub open spec fn part_reads_back(
    data: Seq<u8>,
    part: Seq<char>,
    text: Seq<char>,
    bytes: Seq<u8>,
) -> bool {
    let names = listed_names(zip_members(data)->Ok_0);
    zip_comment(data)->Ok_0.len() == 0 && names.len() < FIELD_MAX && bytes.len() < u32::MAX ==> {
        &&& zip_members(bytes) is Ok
        &&& listed_names(zip_members(bytes)->Ok_0) == names
        &&& names.contains(part) && utf8(text).len() <= XML_LIMIT ==> part_text(bytes, part) == Ok::<
            Seq<char>,
            Seq<char>,
        >(text)
    }
}

/// The package with one part replaced and every other member copied as it is.
pub fn rewritten(data: &[u8], part: &str, text: &str) -> (r: Result<Vec<u8>, Error>)
    requires
        archive_refusal(data@) is None ==> names_fit(data@),
    ensures
        bytes_message(r) == rewritten_bytes(data@, part@, text@),
        r matches Ok(bytes) ==> part_reads_back(data@, part@, text@, bytes@),
{
    let names = match archive(data) {
        Ok(names) => names,
        Err(error) => {
            return Err(error);
        },
    };
    let comment = match read_comment(data) {
        Ok(comment) => comment,
        Err(reason) => {
            return Err(Error::Archive(reason));
        },
    };
    let ghost list = views(names@);
    let ghost members = with_part(data@, list, part@, text@);
    let mut out = start_package(comment.as_slice());
    let mut i: usize = 0;
    assert(members.take(0) =~= Seq::<Put>::empty());
    while i < names.len()
        invariant
            i <= names@.len(),
            archive_refusal(data@) is None,
            names_fit(data@),
            list == views(names@),
            list == listed_names(zip_members(data@)->Ok_0),
            members == with_part(data@, list, part@, text@),
            zip_comment(data@) == Ok::<Seq<u8>, Seq<char>>(comment@),
            comment_of(out) == comment@,
            members_of(out) == members.take(i as int),
            put_refusal(comment@, members, i as int) is None,
        decreases names@.len() - i,
    {
        assert(list[i as int] == names@[i as int]@);
        assert(name_fits(data@, i as int));
        let put = if same(names[i].as_str(), part) {
            write_member(&mut out, data, i, text)
        } else {
            copy_member(&mut out, data, i)
        };
        i = i + 1;
        match put {
            Ok(()) => {
                assert(members.take(i as int) =~= members.take(i - 1).push(members[i - 1]));
            },
            Err(reason) => {
                proof {
                    refusal_stays(comment@, members, i as int, members.len() as int);
                }
                return Err(Error::Archive(reason));
            },
        }
    }
    assert(members.take(members.len() as int) =~= members);
    match finish_package(out) {
        Ok(bytes) => {
            proof {
                if comment@.len() == 0 && list.len() < FIELD_MAX && bytes@.len() < u32::MAX {
                    finished_part_reads_back(data@, part@, text@, bytes@);
                }
            }
            Ok(bytes)
        },
        Err(reason) => Err(Error::Archive(reason)),
    }
}

/// What a finished package reads back as tells the names and the text of its part.
proof fn finished_part_reads_back(
    data: Seq<u8>,
    part: Seq<char>,
    text: Seq<char>,
    bytes: Seq<u8>,
)
    requires
        zip_members(data) is Ok,
        listed_names(zip_members(data)->Ok_0).len() < FIELD_MAX,
        bytes.len() < u32::MAX,
        reads_back(
            bytes,
            with_part(data, listed_names(zip_members(data)->Ok_0), part, text),
        ),
    ensures
        part_reads_back(data, part, text, bytes),
{
    let names = listed_names(zip_members(data)->Ok_0);
    let members = with_part(data, names, part, text);
    assert forall|i: int| 0 <= i < names.len() implies put_name(#[trigger] members[i])
        == names[i] by {}
    assert forall|i: int| 0 <= i < names.len() implies listed_names(zip_members(bytes)->Ok_0)[i]
        == names[i] by {
        assert(zip_members(bytes)->Ok_0[i] matches Ok(m) && m.0 == put_name(members[i]));
    }
    assert(listed_names(zip_members(bytes)->Ok_0) =~= names);
    if names.contains(part) && utf8(text).len() <= XML_LIMIT {
        let i = choose|i: int| 0 <= i < names.len() && names[i] == part;
        let limit = (XML_LIMIT + 1) as u64;
        assert(members[i].text == Some(text));
        assert(zip_text(bytes, put_name(members[i]), limit) == Ok::<Seq<char>, Seq<char>>(text));
    }
}

/// A member that is refused stays the reason, whatever follows it.
proof fn refusal_stays(comment: Seq<u8>, members: Seq<Put>, i: int, n: int)
    requires
        i <= n,
        put_refusal(comment, members, i) is Some,
    ensures
        put_refusal(comment, members, n) == put_refusal(comment, members, i),
    decreases n - i,
{
    if i < n {
        refusal_stays(comment, members, i, n - 1);
    }
}

/// A rewritten package has the members of the package in order; every member but the part is
/// the one of the package, and the part holds the text.
pub proof fn other_members_are_copied(
    data: Seq<u8>,
    names: Seq<Seq<char>>,
    part: Seq<char>,
    text: Seq<char>,
    i: int,
)
    requires
        0 <= i < names.len(),
    ensures
        with_part(data, names, part, text).len() == names.len(),
        with_part(data, names, part, text)[i].from == data,
        with_part(data, names, part, text)[i].index == i,
        with_part(data, names, part, text)[i].text is None <==> names[i] != part,
        names[i] == part ==> with_part(data, names, part, text)[i].text == Some(text),
{
}

} // verus!
