//! Finding a section of an object file, by way of the `object` crate.

use object::{Object, ObjectSection};
use vstd::prelude::*;

verus! {

/// The text of the error of `object::File::parse` on the file `bytes`, if it refuses it.
pub uninterp spec fn object_error(bytes: Seq<u8>) -> Option<Seq<char>>;

/// What `section_by_name` and `file_range` of the `object` crate say of the section `name` of the
/// file `bytes`: nothing where there is no such section or the file is refused, and of a section
/// its file offset and size, if it has file contents.
pub uninterp spec fn section_range(bytes: Seq<u8>, name: Seq<char>) -> Option<Option<(u64, u64)>>;

/// `object::File::parse`: whether it takes `bytes` for an object file, or its error as text.
#[verifier::external_body]
pub(crate) fn parse_object(bytes: &[u8]) -> (res: Result<(), String>)
    ensures
        match res {
            Ok(()) => object_error(bytes@) is None,
            Err(e) => object_error(bytes@) == Some(e@),
        },
{
    object::File::parse(bytes).map(|_| ()).map_err(|e| e.to_string())
}

/// `section_by_name` of a file that `object::File::parse` takes, and `file_range` of the section
/// that it finds.
#[verifier::external_body]
pub(crate) fn find_section(bytes: &[u8], name: &str) -> (res: Option<Option<(u64, u64)>>)
    ensures
        res == section_range(bytes@, name@),
{
    match object::File::parse(bytes) {
        Ok(file) => file.section_by_name(name).map(|section| section.file_range()),
        Err(_) => None,
    }
}

} // verus!
