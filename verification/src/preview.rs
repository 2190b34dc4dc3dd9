//! A picture of the window, saved by it or from a browser tab.
use crate::desktop::{Desktop, StatusKind};
use crate::platform::{Command, Host};
use vstd::prelude::*;

verus! {

/// The PNG file that the `image` crate's encoder makes of `width` by `height`
/// pixels, or its error in words.
pub uninterp spec fn png_of(rgba: Seq<u8>, width: u32, height: u32) -> Result<Seq<u8>, Seq<char>>;

pub open spec fn encoded_view(encoded: Result<Vec<u8>, String>) -> Result<Seq<u8>, Seq<char>> {
    match encoded {
        Ok(data) => Ok(data@),
        Err(error) => Err(error@),
    }
}

/// `image::codecs::png::PngEncoder`'s `write_image`, on 8-bit red, green, blue
/// and alpha: what it writes depends on the pixels and the two sides alone. It
/// wants four bytes per pixel.
#[verifier::external_body]
fn encode_png(rgba: &[u8], width: u32, height: u32) -> (encoded: Result<Vec<u8>, String>)
    requires
        rgba@.len() == 4 * width * height,
    ensures
        encoded_view(encoded) == png_of(rgba@, width, height),
{
    let mut data = Vec::new();
    let encoder = image::codecs::png::PngEncoder::new(&mut data);
    let color = image::ExtendedColorType::Rgba8;
    match image::ImageEncoder::write_image(encoder, rgba, width, height, color) {
        Ok(()) => Ok(data),
        Err(error) => Err(error.to_string()),
    }
}

/// Hands the page an encoded picture to download as `name`, or says why there
/// is none.
pub fn hand_out_png(
    app: &mut Desktop,
    host: &mut Host,
    name: &str,
    encoded: Result<Vec<u8>, String>,
)
    ensures
        match encoded {
            Ok(data) => {
                &&& final(app)@ == old(app)@.with_status(
                    StatusKind::Done,
                    "Downloaded app preview "@ + name@,
                )
                &&& old(host).in_browser ==> {
                    &&& final(host).commands@.len() == old(host).commands@.len() + 1
                    &&& final(host).commands@.drop_last() == old(host).commands@
                    &&& final(host).commands@.last() matches Command::Download {
                        name: n,
                        mime,
                        data: d,
                    }
                    &&& n@ == name@
                    &&& mime@ == "image/png"@
                    &&& d@ == data@
                }
                &&& !old(host).in_browser ==> final(host).commands@ == old(host).commands@
            },
            Err(error) => {
                &&& final(app)@ == old(app)@.with_status(StatusKind::Error, error@)
                &&& final(host).commands@ == old(host).commands@
            },
        },
        final(host).in_browser == old(host).in_browser,
        final(host).jobs == old(host).jobs,
        final(host).servers == old(host).servers,
{
    match encoded {
        Ok(data) => {
            let mut text = "Downloaded app preview ".to_owned();
            text.append(name);
            app.set_status(StatusKind::Done, text.as_str());
            let ghost before = host.commands@;
            host.ask(Command::Download { name: name.to_owned(), mime: "image/png", data });
            assert(host.in_browser ==> host.commands@.drop_last() =~= before);
        },
        Err(error) => {
            app.set_status(StatusKind::Error, error.as_str());
        },
    }
}

/// In a browser tab: hands the page the picture of the window to download.
pub fn download_png(
    app: &mut Desktop,
    host: &mut Host,
    name: &str,
    rgba: &[u8],
    width: u32,
    height: u32,
)
    requires
        rgba@.len() == 4 * width * height,
    ensures
        final(app)@ == (match png_of(rgba@, width, height) {
            Ok(_) => old(app)@.with_status(
                StatusKind::Done,
                "Downloaded app preview "@ + name@,
            ),
            Err(error) => old(app)@.with_status(StatusKind::Error, error),
        }),
        match png_of(rgba@, width, height) {
            Ok(data) => {
                &&& old(host).in_browser ==> {
                    &&& final(host).commands@.len() == old(host).commands@.len() + 1
                    &&& final(host).commands@.drop_last() == old(host).commands@
                    &&& final(host).commands@.last() matches Command::Download {
                        name: n,
                        mime,
                        data: d,
                    }
                    &&& n@ == name@
                    &&& mime@ == "image/png"@
                    &&& d@ == data
                }
                &&& !old(host).in_browser ==> final(host).commands@ == old(host).commands@
            },
            Err(_) => final(host).commands@ == old(host).commands@,
        },
        final(host).in_browser == old(host).in_browser,
        final(host).jobs == old(host).jobs,
        final(host).servers == old(host).servers,
{
    let encoded = encode_png(rgba, width, height);
    hand_out_png(app, host, name, encoded);
}

/// In a window: says how saving its picture to `path` went.
pub fn preview_saved(app: &mut Desktop, path: &str, outcome: Result<(), String>)
    ensures
        final(app)@ == (match outcome {
            Ok(_) => old(app)@.with_status(StatusKind::Done, "Saved app preview "@ + path@),
            Err(error) => old(app)@.with_status(StatusKind::Error, error@),
        }),
{
    match outcome {
        Ok(_) => {
            let mut text = "Saved app preview ".to_owned();
            text.append(path);
            app.set_status(StatusKind::Done, text.as_str());
        },
        Err(error) => app.set_status(StatusKind::Error, error.as_str()),
    }
}

} // verus!
