//! Kinds of directory entries, told apart by their extension.
use crate::paths::{extension, path_extension};
use crate::text::{lowercase, spec_lowercase, str_equal};
use vstd::prelude::*;

verus! {

/// The kind of a directory entry.
#[derive(Debug, Clone, Copy, PartialEq, Eq, Structural)]
pub enum EntryType {
    Image,
    Document,
    Video,
    Other,
    Directory,
}

pub open spec fn is_image_extension(e: Seq<char>) -> bool {
    e == "jpg"@ || e == "jpeg"@ || e == "png"@ || e == "gif"@ || e == "bmp"@ || e == "webp"@
}

pub open spec fn is_document_extension(e: Seq<char>) -> bool {
    e == "pdf"@ || e == "doc"@ || e == "docx"@ || e == "txt"@ || e == "md"@
}

pub open spec fn is_video_extension(e: Seq<char>) -> bool {
    e == "mp4"@ || e == "mkv"@ || e == "avi"@ || e == "mov"@
}

/// The kind of the entry at `path`: a directory, or else by its lowercased extension.
pub open spec fn entry_type(path: Seq<char>, is_dir: bool) -> EntryType {
    if is_dir {
        EntryType::Directory
    } else {
        match extension(path) {
            None => EntryType::Other,
            Some(e) => {
                let l = spec_lowercase(e);
                if is_image_extension(l) {
                    EntryType::Image
                } else if is_document_extension(l) {
                    EntryType::Document
                } else if is_video_extension(l) {
                    EntryType::Video
                } else {
                    EntryType::Other
                }
            },
        }
    }
}

/// The kind of the entry at `path`; `is_dir` tells whether it is a directory.
pub fn get_entry_type(path: &str, is_dir: bool) -> (r: EntryType)
    ensures
        r == entry_type(path@, is_dir),
{
    if is_dir {
        return EntryType::Directory;
    }
    let ext = match path_extension(path) {
        Some(e) => e,
        None => return EntryType::Other,
    };
    let l = lowercase(ext.as_str());
    let s = l.as_str();
    if str_equal(s, "jpg") || str_equal(s, "jpeg") || str_equal(s, "png") || str_equal(s, "gif")
        || str_equal(s, "bmp") || str_equal(s, "webp") {
        EntryType::Image
    } else if str_equal(s, "pdf") || str_equal(s, "doc") || str_equal(s, "docx") || str_equal(s, "txt")
        || str_equal(s, "md") {
        EntryType::Document
    } else if str_equal(s, "mp4") || str_equal(s, "mkv") || str_equal(s, "avi") || str_equal(s, "mov") {
        EntryType::Video
    } else {
        EntryType::Other
    }
}

/// The kinds of entries: a directory is a directory whatever its name; another
/// entry with no extension is `Other`; otherwise its extension, lowercased,
/// decides: `jpg`, `jpeg`, `png`, `gif`, `bmp` and `webp` are images; `pdf`,
/// `doc`, `docx`, `txt` and `md` documents; `mp4`, `mkv`, `avi` and `mov` videos;
/// anything else is `Other`.
pub proof fn law_entry_type_table(path: Seq<char>, is_dir: bool)
    ensures
        is_dir ==> entry_type(path, is_dir) == EntryType::Directory,
        !is_dir && extension(path) is None ==> entry_type(path, is_dir) == EntryType::Other,
        !is_dir && extension(path) is Some ==> ({
            let l = spec_lowercase(extension(path)->0);
            &&& (l == "jpg"@ || l == "jpeg"@ || l == "png"@ || l == "gif"@ || l == "bmp"@ || l == "webp"@) ==> entry_type(path, is_dir) == EntryType::Image
            &&& (l == "pdf"@ || l == "doc"@ || l == "docx"@ || l == "txt"@ || l == "md"@) ==> entry_type(path, is_dir) == EntryType::Document
            &&& (l == "mp4"@ || l == "mkv"@ || l == "avi"@ || l == "mov"@) ==> entry_type(path, is_dir) == EntryType::Video
            &&& !(l == "jpg"@ || l == "jpeg"@ || l == "png"@ || l == "gif"@ || l == "bmp"@ || l == "webp"@ || l == "pdf"@ || l == "doc"@ || l == "docx"@ || l == "txt"@ || l == "md"@ || l == "mp4"@ || l == "mkv"@ || l == "avi"@ || l == "mov"@) ==> entry_type(path, is_dir) == EntryType::Other
        }),
{
    reveal_strlit("jpg");
    reveal_strlit("jpeg");
    reveal_strlit("png");
    reveal_strlit("gif");
    reveal_strlit("bmp");
    reveal_strlit("webp");
    reveal_strlit("pdf");
    reveal_strlit("doc");
    reveal_strlit("docx");
    reveal_strlit("txt");
    reveal_strlit("md");
    reveal_strlit("mp4");
    reveal_strlit("mkv");
    reveal_strlit("avi");
    reveal_strlit("mov");
    assert("pdf"@[0] != "jpg"@[0]);
    assert("pdf"@.len() != "jpeg"@.len());
    assert("pdf"@[1] != "png"@[1]);
    assert("pdf"@[0] != "gif"@[0]);
    assert("pdf"@[0] != "bmp"@[0]);
    assert("pdf"@.len() != "webp"@.len());
    assert("doc"@[0] != "jpg"@[0]);
    assert("doc"@.len() != "jpeg"@.len());
    assert("doc"@[0] != "png"@[0]);
    assert("doc"@[0] != "gif"@[0]);
    assert("doc"@[0] != "bmp"@[0]);
    assert("doc"@.len() != "webp"@.len());
    assert("docx"@.len() != "jpg"@.len());
    assert("docx"@[0] != "jpeg"@[0]);
    assert("docx"@.len() != "png"@.len());
    assert("docx"@.len() != "gif"@.len());
    assert("docx"@.len() != "bmp"@.len());
    assert("docx"@[0] != "webp"@[0]);
    assert("txt"@[0] != "jpg"@[0]);
    assert("txt"@.len() != "jpeg"@.len());
    assert("txt"@[0] != "png"@[0]);
    assert("txt"@[0] != "gif"@[0]);
    assert("txt"@[0] != "bmp"@[0]);
    assert("txt"@.len() != "webp"@.len());
    assert("md"@.len() != "jpg"@.len());
    assert("md"@.len() != "jpeg"@.len());
    assert("md"@.len() != "png"@.len());
    assert("md"@.len() != "gif"@.len());
    assert("md"@.len() != "bmp"@.len());
    assert("md"@.len() != "webp"@.len());
    assert("mp4"@[0] != "jpg"@[0]);
    assert("mp4"@.len() != "jpeg"@.len());
    assert("mp4"@[0] != "png"@[0]);
    assert("mp4"@[0] != "gif"@[0]);
    assert("mp4"@[0] != "bmp"@[0]);
    assert("mp4"@.len() != "webp"@.len());
    assert("mp4"@[0] != "pdf"@[0]);
    assert("mp4"@[0] != "doc"@[0]);
    assert("mp4"@.len() != "docx"@.len());
    assert("mp4"@[0] != "txt"@[0]);
    assert("mp4"@.len() != "md"@.len());
    assert("mkv"@[0] != "jpg"@[0]);
    assert("mkv"@.len() != "jpeg"@.len());
    assert("mkv"@[0] != "png"@[0]);
    assert("mkv"@[0] != "gif"@[0]);
    assert("mkv"@[0] != "bmp"@[0]);
    assert("mkv"@.len() != "webp"@.len());
    assert("mkv"@[0] != "pdf"@[0]);
    assert("mkv"@[0] != "doc"@[0]);
    assert("mkv"@.len() != "docx"@.len());
    assert("mkv"@[0] != "txt"@[0]);
    assert("mkv"@.len() != "md"@.len());
    assert("avi"@[0] != "jpg"@[0]);
    assert("avi"@.len() != "jpeg"@.len());
    assert("avi"@[0] != "png"@[0]);
    assert("avi"@[0] != "gif"@[0]);
    assert("avi"@[0] != "bmp"@[0]);
    assert("avi"@.len() != "webp"@.len());
    assert("avi"@[0] != "pdf"@[0]);
    assert("avi"@[0] != "doc"@[0]);
    assert("avi"@.len() != "docx"@.len());
    assert("avi"@[0] != "txt"@[0]);
    assert("avi"@.len() != "md"@.len());
    assert("mov"@[0] != "jpg"@[0]);
    assert("mov"@.len() != "jpeg"@.len());
    assert("mov"@[0] != "png"@[0]);
    assert("mov"@[0] != "gif"@[0]);
    assert("mov"@[0] != "bmp"@[0]);
    assert("mov"@.len() != "webp"@.len());
    assert("mov"@[0] != "pdf"@[0]);
    assert("mov"@[0] != "doc"@[0]);
    assert("mov"@.len() != "docx"@.len());
    assert("mov"@[0] != "txt"@[0]);
    assert("mov"@.len() != "md"@.len());
}

} // verus!
