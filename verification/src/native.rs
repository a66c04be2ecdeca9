//! Saving the edits of a workbook sheet in the workbook's own format.
use crate::cells::Cells;
use crate::error::Error;
use crate::ods_patch::{cells_named, patch_ods, patched_ods};
use crate::package::{archive, archive_refusal, listed_names, part_text, read_xml, zip_members};
use crate::rewrite::{
    bytes_message, check_names, names_fit, part_reads_back, rewritten, rewritten_bytes,
};
use crate::sheet::Sheet;
use crate::text::{has_end, has_start, views};
use crate::workbook::{Format, Workbook};
use crate::xlsx::{patch_xlsx, patched_xlsx, rows_named};
use crate::xml::{parse_xml, push_bytes, scopes, utf8, xml_error, xml_scopes, Xml, NODE_LIMIT};
use vstd::prelude::*;

verus! {

/// What a native save writes.
#[derive(Debug)]
pub enum Native {
    /// The source as it is.
    Copy,
    /// The source with this text in place of the sheet's part; every other member is copied.
    Part(String),
}

/// A member that signs the workbook.
pub open spec fn is_signature(name: Seq<char>) -> bool {
    ||| crate::text::occurs_at(name, "_xmlsignatures/"@, 0)
    ||| crate::text::ends_with(name, "documentsignatures.xml"@)
    ||| crate::text::ends_with(name, "macrosignatures.xml"@)
}

/// One of the members signs the workbook.
pub open spec fn is_signed(names: Seq<Seq<char>>) -> bool {
    exists|i: int| 0 <= i < names.len() && is_signature(#[trigger] names[i])
}

fn signed(names: &Vec<String>) -> (r: bool)
    ensures
        r == is_signed(views(names@)),
{
    let ghost all = views(names@);
    let mut i: usize = 0;
    while i < names.len()
        invariant
            all == views(names@),
            i <= names@.len(),
            forall|k: int| 0 <= k < i ==> !is_signature(#[trigger] all[k]),
        decreases names@.len() - i,
    {
        let name = names[i].as_str();
        assert(all[i as int] == name@);
        if has_start(name, "_xmlsignatures/") || has_end(name, "documentsignatures.xml") || has_end(
            name,
            "macrosignatures.xml",
        ) {
            return true;
        }
        i = i + 1;
    }
    false
}

/// `String::from_utf8` gives the text of bytes that are UTF-8, and nothing for others.
#[verifier::external_body]
fn text_of(bytes: Vec<u8>) -> (r: Option<String>)
    ensures
        match r {
            Some(text) => utf8(text@) == bytes@,
            None => !vstd::utf8::valid_utf8(bytes@),
        },
{
    String::from_utf8(bytes).ok()
}

/// A part with the edits of its sheet made, by its document and what the prefix `office`
/// stands for at each of its nodes.
pub open spec fn patched(
    book: Workbook,
    doc: Xml,
    text: Seq<u8>,
    scopes: Seq<Option<String>>,
    edits: Cells,
) -> Result<Seq<u8>, Error> {
    match book.format {
        Format::Xlsx => patched_xlsx(doc, text, edits.entries@),
        Format::Ods => patched_ods(doc, text, scopes, book.name@, edits.entries@),
    }
}

/// A part with the edits of its sheet made and every other byte kept.
pub fn patch(
    book: &Workbook,
    doc: &Xml,
    text: &[u8],
    scopes: &Vec<Option<String>>,
    edits: &Cells,
) -> (r: Result<Vec<u8>, Error>)
    requires
        doc.wf(text@.len() as int),
        scopes@.len() == doc.nodes@.len(),
        edits.wf(),
        cells_named(edits.entries@),
    ensures
        match r {
            Ok(bytes) => patched(*book, *doc, text@, scopes@, *edits) == Ok::<Seq<u8>, Error>(
                bytes@,
            ),
            Err(error) => patched(*book, *doc, text@, scopes@, *edits) == Err::<Seq<u8>, Error>(
                error,
            ),
        },
{
    match book.format {
        Format::Xlsx => {
            assert(rows_named(edits.entries@));
            patch_xlsx(doc, text, edits)
        },
        Format::Ods => patch_ods(doc, text, scopes, book.name.as_str(), edits),
    }
}

/// What a native save shows, with the message of an error.
pub open spec fn native_view(r: Result<Native, Error>) -> Result<Option<Seq<char>>, Seq<char>> {
    match r {
        Ok(Native::Copy) => Ok(None),
        Ok(Native::Part(text)) => Ok(Some(text@)),
        Err(error) => Err(error.message()),
    }
}

/// The outcome of patching a part with this text: the new text has to be XML again.
pub open spec fn is_replacement(
    text: Seq<char>,
    book: Workbook,
    doc: Xml,
    scopes: Seq<Option<String>>,
    edits: Cells,
    r: Result<Option<Seq<char>>, Seq<char>>,
) -> bool {
    match patched(book, doc, utf8(text), scopes, edits) {
        Err(error) => r == Err::<Option<Seq<char>>, Seq<char>>(error.message()),
        Ok(bytes) => match r {
            Ok(Some(new)) => utf8(new) == bytes && xml_error(new) is None,
            Ok(None) => false,
            Err(reason) => {
                ||| !vstd::utf8::valid_utf8(bytes) && reason == Error::NotUtf8.message()
                ||| exists|new: Seq<char>|
                    utf8(new) == bytes && #[trigger] xml_error(new) == Some(reason)
            },
        },
    }
}

/// The document and the scopes are those of the text.
pub open spec fn are_of(text: Seq<char>, doc: Xml, scopes: Seq<Option<String>>) -> bool {
    &&& xml_error(text) is None
    &&& doc.parsed_from(text)
    &&& doc.wf(utf8(text).len() as int)
    &&& xml_scopes(text, "office"@, NODE_LIMIT) == Ok::<Seq<Option<Seq<char>>>, Seq<char>>(
        scopes.map_values(|t: Option<String>| crate::sheet::text_view(t)),
    )
}

/// The outcome of saving the edits in a part with this text.
pub open spec fn is_patched_text(
    text: Seq<char>,
    book: Workbook,
    edits: Cells,
    r: Result<Option<Seq<char>>, Seq<char>>,
) -> bool {
    let found = xml_scopes(text, "office"@, NODE_LIMIT);
    if xml_error(text) is Some {
        r == Err::<Option<Seq<char>>, Seq<char>>(xml_error(text)->0)
    } else if found is Err {
        r == Err::<Option<Seq<char>>, Seq<char>>(found->Err_0)
    } else {
        exists|doc: Xml, list: Seq<Option<String>>| #[trigger]
            are_of(text, doc, list) && is_replacement(text, book, doc, list, edits, r)
    }
}

/// The part with this text and the edits made. The new text has to be XML again.
pub fn patch_text(book: &Workbook, text: &str, edits: &Cells) -> (r: Result<Native, Error>)
    requires
        edits.wf(),
        cells_named(edits.entries@),
    ensures
        is_patched_text(text@, *book, *edits, native_view(r)),
{
    let doc = match parse_xml(text) {
        Ok(doc) => doc,
        Err(error) => {
            return Err(error);
        },
    };
    let list = match scopes(text, "office") {
        Ok(list) => list,
        Err(error) => {
            return Err(error);
        },
    };
    proof {
        assert(are_of(text@, doc, list@));
        assert(list@.len() == doc.nodes@.len()) by {
            assert(doc.nodes@.map_values(|n: crate::xml::XmlNode| n@).len() == doc.nodes@.len());
        }
    }
    let bytes = match patch(book, &doc, text.as_bytes(), &list, edits) {
        Ok(bytes) => bytes,
        Err(error) => {
            return Err(error);
        },
    };
    let new = match text_of(bytes) {
        Some(new) => new,
        None => {
            return Err(Error::NotUtf8);
        },
    };
    match parse_xml(new.as_str()) {
        Ok(_) => Ok(Native::Part(new)),
        Err(error) => {
            assert(xml_error(new@) == Some(error.message()));
            Err(error)
        },
    }
}

/// The outcome of a native save.
pub open spec fn is_native_save(
    data: Seq<u8>,
    book: Workbook,
    edits: Cells,
    r: Result<Option<Seq<char>>, Seq<char>>,
) -> bool {
    if edits.entries@.len() == 0 {
        r == Ok::<Option<Seq<char>>, Seq<char>>(None)
    } else if archive_refusal(data) is Some {
        r == Err::<Option<Seq<char>>, Seq<char>>(archive_refusal(data)->0)
    } else if is_signed(listed_names(zip_members(data)->Ok_0)) {
        r == Err::<Option<Seq<char>>, Seq<char>>(Error::Signed.message())
    } else {
        match part_text(data, book.part@) {
            Err(reason) => r == Err::<Option<Seq<char>>, Seq<char>>(reason),
            Ok(text) => is_patched_text(text, book, edits, r),
        }
    }
}

/// What a native save of the edits writes, given the bytes of the workbook: the workbook as
/// it is where there are none, else the new text of the sheet's part.
pub fn native_save(data: &[u8], book: &Workbook, edits: &Cells) -> (r: Result<Native, Error>)
    requires
        edits.wf(),
        cells_named(edits.entries@),
    ensures
        is_native_save(data@, *book, *edits, native_view(r)),
{
    if edits.entries.len() == 0 {
        return Ok(Native::Copy);
    }
    let names = match archive(data) {
        Ok(names) => names,
        Err(error) => {
            return Err(error);
        },
    };
    if signed(&names) {
        return Err(Error::Signed);
    }
    match read_xml(data, book.part.as_str()) {
        Err(error) => Err(error),
        Ok(text) => patch_text(book, text.as_str(), edits),
    }
}

/// A workbook without edits, be it that all were undone, is saved as it is.
pub proof fn unedited_workbook_is_copied(
    data: Seq<u8>,
    book: Workbook,
    edits: Cells,
    r: Result<Option<Seq<char>>, Seq<char>>,
)
    requires
        edits.wf(),
        edits@ == Map::<crate::a1::Address, Seq<char>>::empty(),
        is_native_save(data, book, edits, r),
    ensures
        r == Ok::<Option<Seq<char>>, Seq<char>>(None),
{
    if edits.entries@.len() > 0 {
        edits.entry_is_held(0);
    }
}

/// An edited save of a signed workbook is refused.
pub proof fn signed_workbook_keeps_its_signature(
    data: Seq<u8>,
    book: Workbook,
    edits: Cells,
    r: Result<Option<Seq<char>>, Seq<char>>,
)
    requires
        edits.entries@.len() > 0,
        archive_refusal(data) is None,
        is_signed(listed_names(zip_members(data)->Ok_0)),
        is_native_save(data, book, edits, r),
    ensures
        r is Err,
{
}

/// The bytes that a native save publishes: the workbook as it is, or with the new text of
/// the sheet's part.
pub open spec fn saved_bytes(
    data: Seq<u8>,
    part: Seq<char>,
    native: Result<Option<Seq<char>>, Seq<char>>,
) -> Result<Seq<u8>, Seq<char>> {
    match native {
        Err(reason) => Err(reason),
        Ok(None) => Ok(data),
        Ok(Some(text)) => rewritten_bytes(data, part, text),
    }
}

/// The outcome of writing the workbook of a sheet with its edits.
pub open spec fn is_package_save(
    data: Seq<u8>,
    book: Workbook,
    edits: Cells,
    r: Result<Seq<u8>, Seq<char>>,
) -> bool {
    exists|native: Result<Option<Seq<char>>, Seq<char>>|
        {
            &&& #[trigger] is_native_save(data, book, edits, native)
            &&& r == saved_bytes(data, book.part@, native)
            &&& saved_text_reads_back(data, book.part@, native, r)
        }
}

/// The new text of the sheet's part is read back from the bytes that were saved.
pub open spec fn saved_text_reads_back(
    data: Seq<u8>,
    part: Seq<char>,
    native: Result<Option<Seq<char>>, Seq<char>>,
    r: Result<Seq<u8>, Seq<char>>,
) -> bool {
    match (native, r) {
        (Ok(Some(text)), Ok(bytes)) => part_reads_back(data, part, text, bytes),
        _ => true,
    }
}

/// A workbook without edits is written byte for byte as it was read.
pub proof fn unedited_workbook_keeps_its_bytes(
    data: Seq<u8>,
    book: Workbook,
    edits: Cells,
    r: Result<Seq<u8>, Seq<char>>,
)
    requires
        edits.wf(),
        edits@ == Map::<crate::a1::Address, Seq<char>>::empty(),
        is_package_save(data, book, edits, r),
    ensures
        r == Ok::<Seq<u8>, Seq<char>>(data),
{
    let native = choose|native: Result<Option<Seq<char>>, Seq<char>>|
        {
            &&& #[trigger] is_native_save(data, book, edits, native)
            &&& r == saved_bytes(data, book.part@, native)
            &&& saved_text_reads_back(data, book.part@, native, r)
        };
    unedited_workbook_is_copied(data, book, edits, native);
}

impl Sheet {
    /// The bytes of the workbook of the sheet with its edits, given those it was read from.
    /// None where a part is to be replaced and the name of a member does not fit.
    pub fn save_package(&self, data: &[u8]) -> (r: Option<Result<Vec<u8>, Error>>)
        requires
            self.wf(),
            self.workbook is Some,
        ensures
            match r {
                Some(saved) => is_package_save(
                    data@,
                    self.workbook->0,
                    self.edits,
                    bytes_message(saved),
                ),
                None => self.edits.entries@.len() > 0 && archive_refusal(data@) is None
                    && !names_fit(data@),
            },
    {
        let native = self.save_native(data);
        let ghost view = native_view(native);
        assert(is_native_save(data@, self.workbook->0, self.edits, view));
        match (native, &self.workbook) {
            (Err(error), _) => Some(Err(error)),
            (Ok(Native::Part(text)), Some(book)) => if check_names(data) {
                Some(rewritten(data, book.part.as_str(), text.as_str()))
            } else {
                None
            },
            _ => {
                let mut bytes: Vec<u8> = Vec::new();
                push_bytes(&mut bytes, data);
                assert(bytes@ =~= data@);
                Some(Ok(bytes))
            },
        }
    }

    /// What a native save of the sheet writes, given the bytes of its workbook.
    pub fn save_native(&self, data: &[u8]) -> (r: Result<Native, Error>)
        requires
            self.wf(),
            self.workbook is Some,
        ensures
            is_native_save(data@, self.workbook->0, self.edits, native_view(r)),
    {
        proof {
            assert forall|k: int| 0 <= k < self.edits.entries@.len() implies (
            #[trigger] self.edits.entries@[k]).0.0 < u64::MAX && self.edits.entries@[k].0.1
                < usize::MAX by {
                self.edits.entry_is_held(k);
            }
        }
        match &self.workbook {
            Some(book) => native_save(data, book, &self.edits),
            None => Ok(Native::Copy),
        }
    }
}

} // verus!
