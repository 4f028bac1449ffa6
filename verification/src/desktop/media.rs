//! Files shown in the browser: the content of a small file as base64 text, and
//! the thumbnail of an image as a PNG data URL.
use crate::desktop::listing::lower_extension;
use crate::paths::path_extension;
use crate::text::{concat, lowercase, owned, str_equal};
use base64::Engine;
use vstd::prelude::*;

verus! {

/// The standard base64 text of some bytes (RFC 4648 alphabet, with padding).
pub uninterp spec fn base64_standard(bytes: Seq<u8>) -> Seq<char>;

/// Calls `base64::engine::general_purpose::STANDARD.encode`. Trusted: the result
/// is the padded standard base64 text of `bytes`, which depends on the bytes alone
/// (named [`base64_standard`]), with four characters for every three bytes or
/// part of three. The crate panics when that length does not fit in `usize`,
/// which `requires` leaves out.
#[verifier::external_body]
fn encode_base64(bytes: &Vec<u8>) -> (r: String)
    requires
        4 * ((bytes@.len() + 2) / 3) <= usize::MAX,
    ensures
        r@ == base64_standard(bytes@),
        r@.len() == 4 * ((bytes@.len() + 2) / 3),
{
    base64::engine::general_purpose::STANDARD.encode(bytes)
}

/// What the image crate makes of the bytes of an image file whose (lower-case)
/// extension is `ext`: decoded in the format that the extension names, scaled to
/// fill `width` by `height` and cropped to it, and encoded as PNG. When it cannot,
/// `(true, text)` says that decoding failed and `(false, text)` that encoding did.
pub uninterp spec fn thumbnail_png(file: Seq<u8>, ext: Seq<char>, width: u32, height: u32) -> Result<
    Seq<u8>,
    (bool, Seq<char>),
>;

/// Calls `image::ImageReader::with_format(..).decode()` with the format that
/// `image::ImageFormat::from_extension` gives for `ext`, then
/// `image::DynamicImage::resize_to_fill` with the Lanczos filter and
/// `image::DynamicImage::write_to` with the PNG format into memory. Trusted: the
/// outcome depends on its arguments alone (named [`thumbnail_png`]), with the text
/// of the crate's error when a step fails; the PNG bytes, as those of any vector,
/// number at most `isize::MAX`. The extensions that `requires` admits all name a
/// format that the crate decodes.
#[verifier::external_body]
fn render_thumbnail(file: &Vec<u8>, ext: &str, width: u32, height: u32) -> (r: Result<Vec<u8>, (bool, String)>)
    requires
        thumbnail_format(ext@),
    ensures
        match r {
            Ok(png) => thumbnail_png(file@, ext@, width, height) == Ok::<Seq<u8>, (bool, Seq<char>)>(png@)
                && png@.len() <= isize::MAX,
            Err((decoding, text)) => thumbnail_png(file@, ext@, width, height) == Err::<Seq<u8>, (bool, Seq<char>)>(
                (decoding, text@),
            ),
        },
{
    let format = match image::ImageFormat::from_extension(ext) {
        Some(f) => f,
        None => return Err((true, String::new())),
    };
    let img = match image::ImageReader::with_format(std::io::Cursor::new(file.as_slice()), format).decode() {
        Ok(i) => i,
        Err(e) => return Err((true, e.to_string())),
    };
    let thumbnail = img.resize_to_fill(width, height, image::imageops::FilterType::Lanczos3);
    let mut bytes: Vec<u8> = Vec::new();
    match thumbnail.write_to(&mut std::io::Cursor::new(&mut bytes), image::ImageFormat::Png) {
        Ok(()) => Ok(bytes),
        Err(e) => Err((false, e.to_string())),
    }
}

/// The largest file whose content is shown: 5 MiB.
pub open spec fn preview_limit() -> nat {
    5 * 1024 * 1024
}

/// Whether a file of `size` bytes may be shown; the error says why not.
pub fn check_preview_size(size: u64) -> (r: Result<(), String>)
    ensures
        size <= preview_limit() ==> r is Ok,
        size > preview_limit() ==> (r matches Err(m) && m@ == "Plik jest zbyt duży do wyświetlenia"@),
{
    let max_size: u64 = 5 * 1024 * 1024;
    if size > max_size {
        return Err(owned("Plik jest zbyt duży do wyświetlenia"));
    }
    Ok(())
}

/// The content of a file as standard base64 text.
pub fn file_as_base64(bytes: &Vec<u8>) -> (r: String)
    requires
        4 * ((bytes@.len() + 2) / 3) <= usize::MAX,
    ensures
        r@ == base64_standard(bytes@),
{
    encode_base64(bytes)
}

/// The extensions of the images that get a thumbnail.
pub open spec fn thumbnail_format(ext: Seq<char>) -> bool {
    ext == "jpg"@ || ext == "jpeg"@ || ext == "png"@ || ext == "gif"@ || ext == "bmp"@ || ext == "webp"@
}

/// Whether the file at `path` (which the file system says exists or not) can get
/// a thumbnail; the error says why not.
pub fn check_thumbnail_source(path: &str, exists: bool) -> (r: Result<(), String>)
    ensures
        !exists ==> (r matches Err(m) && m@ == "Plik nie istnieje"@),
        exists && !(lower_extension(path@) matches Some(e) && thumbnail_format(e)) ==> (r matches Err(m) && m@
            == "Plik nie jest obsługiwanym formatem obrazu"@),
        exists && (lower_extension(path@) matches Some(e) && thumbnail_format(e)) ==> r is Ok,
{
    if !exists {
        return Err(owned("Plik nie istnieje"));
    }
    let ok = match path_extension(path) {
        Some(e) => {
            let lower = lowercase(e.as_str());
            let l = lower.as_str();
            str_equal(l, "jpg") || str_equal(l, "jpeg") || str_equal(l, "png") || str_equal(l, "gif") || str_equal(
                l,
                "bmp",
            ) || str_equal(l, "webp")
        },
        None => false,
    };
    if !ok {
        return Err(owned("Plik nie jest obsługiwanym formatem obrazu"));
    }
    Ok(())
}

/// The error when an image cannot be opened, with the crate's explanation.
pub fn image_open_error(detail: &str) -> (r: String)
    ensures
        r@ == "Nie udało się otworzyć obrazu: "@ + detail@,
{
    concat("Nie udało się otworzyć obrazu: ", detail)
}

/// The data URL of a PNG image.
pub open spec fn png_data_url(png: Seq<u8>) -> Seq<char> {
    "data:image/png;base64,"@ + base64_standard(png)
}

/// The data URL of the PNG image `png`.
pub fn data_url_of_png(png: &Vec<u8>) -> (r: String)
    requires
        4 * ((png@.len() + 2) / 3) <= usize::MAX,
    ensures
        r@ == png_data_url(png@),
{
    let text = encode_base64(png);
    concat("data:image/png;base64,", text.as_str())
}

/// Base64 text of as many bytes as a vector can hold fits in `usize`.
proof fn lemma_base64_fits(n: int)
    requires
        0 <= n <= isize::MAX,
    ensures
        4 * ((n + 2) / 3) <= usize::MAX,
{
    assert(isize::MAX * 2 + 1 == usize::MAX) by {
        assert(usize::BITS == 32 || usize::BITS == 64);
    }
    assert(4 * ((n + 2) / 3) <= usize::MAX) by (nonlinear_arith)
        requires
            0 <= n <= isize::MAX,
            isize::MAX * 2 + 1 == usize::MAX,
            isize::MAX >= 1000,
    ;
}

/// What the browser gets for the thumbnail of the image file at `path` with
/// content `file`: the PNG data URL, or why there is none.
pub open spec fn thumbnail_answer(path: Seq<char>, file: Seq<u8>, width: u32, height: u32) -> Result<Seq<char>, Seq<char>> {
    match lower_extension(path) {
        Some(e) => if thumbnail_format(e) {
            match thumbnail_png(file, e, width, height) {
                Ok(png) => Ok(png_data_url(png)),
                Err((decoding, text)) => if decoding {
                    Err("Nie udało się otworzyć obrazu: "@ + text)
                } else {
                    Err("Nie udało się zapisać miniaturki: "@ + text)
                },
            }
        } else {
            Err("Plik nie jest obsługiwanym formatem obrazu"@)
        },
        None => Err("Plik nie jest obsługiwanym formatem obrazu"@),
    }
}

/// The thumbnail of the image file at `path`, whose content is `file`: scaled to
/// fill `width` by `height`, cropped to it, as the data URL of a PNG image.
pub fn thumbnail_from_file(path: &str, file: &Vec<u8>, width: u32, height: u32) -> (r: Result<String, String>)
    ensures
        match r {
            Ok(s) => thumbnail_answer(path@, file@, width, height) == Ok::<Seq<char>, Seq<char>>(s@),
            Err(m) => thumbnail_answer(path@, file@, width, height) == Err::<Seq<char>, Seq<char>>(m@),
        },
{
    let ext = match path_extension(path) {
        Some(e) => lowercase(e.as_str()),
        None => return Err(owned("Plik nie jest obsługiwanym formatem obrazu")),
    };
    let e = ext.as_str();
    let supported = str_equal(e, "jpg") || str_equal(e, "jpeg") || str_equal(e, "png") || str_equal(e, "gif")
        || str_equal(e, "bmp") || str_equal(e, "webp");
    if !supported {
        return Err(owned("Plik nie jest obsługiwanym formatem obrazu"));
    }
    match render_thumbnail(file, e, width, height) {
        Ok(png) => {
            proof {
                lemma_base64_fits(png@.len() as int);
            }
            Ok(data_url_of_png(&png))
        },
        Err((decoding, text)) => {
            if decoding {
                Err(concat("Nie udało się otworzyć obrazu: ", text.as_str()))
            } else {
                Err(concat("Nie udało się zapisać miniaturki: ", text.as_str()))
            }
        },
    }
}

} // verus!
