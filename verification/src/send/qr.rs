//! Rendering one message's wire text as a displayable QR graphic.

use vstd::prelude::*;

verus! {

/// The SVG the renderer produces for a text, as `qrcode::QrCode::new`
/// followed by its SVG renderer computes it: a function of the text
/// alone, `None` exactly where the text exceeds what one symbol can hold.
pub uninterp spec fn qr_svg_of(s: Seq<char>) -> Option<Seq<char>>;

/// Render a text as an SVG QR graphic.  Returns `None` exactly where the
/// renderer rejects the text as too long for one symbol.
///
/// Relies on `qrcode::QrCode::new` and its `render::svg` backend:
/// rendering is deterministic in the content.
#[verifier::external_body]
pub fn qr(content: &str) -> (r: Option<String>)
    ensures
        match r {
            Some(svg) => qr_svg_of(content@) == Some(svg@),
            None => qr_svg_of(content@) is None,
        },
{
    let code = match qrcode::QrCode::new(content) {
        Ok(code) => code,
        Err(_) => return None,
    };
    Some(
        code.render()
            .min_dimensions(400, 400)
            .max_dimensions(400, 400)
            .dark_color(qrcode::render::svg::Color("#000000"))
            .light_color(qrcode::render::svg::Color("#ffffff"))
            .build(),
    )
}

} // verus!
