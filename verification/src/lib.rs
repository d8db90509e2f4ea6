//! sigtrace: a signature-specialised bitmap-to-vector tracer for low-quality
//! eID scans. The integer core of the pipeline lives here, with contracts.

pub mod components;
pub mod contour;
pub mod contrast;
pub mod decimal;
pub mod pgm;
pub mod resize;

pub use components::despeckle;
pub use contrast::rescue_contrast;

use crate::decimal::{append_decimal, dec_chars};
use vstd::prelude::*;

verus! {

/// The outcome of a trace: the SVG path data and the working size.
pub struct TraceResult {
    pub path_d: String,
    pub width: usize,
    pub height: usize,
    pub subpaths: usize,
}

/// The standalone SVG document that shows the path data `d` of a `w` by `h`
/// trace filled with `fill` (even-odd rule).
pub open spec fn svg_text(w: usize, h: usize, fill: Seq<char>, d: Seq<char>) -> Seq<char> {
    "<svg xmlns=\"http://www.w3.org/2000/svg\" width=\""@ + dec_chars(w as nat) + "\" height=\""@
        + dec_chars(h as nat) + "\" viewBox=\"0 0 "@ + dec_chars(w as nat) + " "@ + dec_chars(
        h as nat,
    ) + "\"><path fill=\""@ + fill + "\" fill-rule=\"evenodd\" d=\""@ + d + "\"/></svg>"@
}

/// The document holds the whole path data, verbatim, right before the
/// closing `"/></svg>`: the document for any path data `d` is the document
/// for empty path data with `d` put in front of that closing text.
pub proof fn lemma_svg_holds_path(w: usize, h: usize, fill: Seq<char>, d: Seq<char>)
    ensures
        ({
            let e = svg_text(w, h, fill, Seq::empty());
            let t = "\"/></svg>"@;
            &&& e.len() >= t.len()
            &&& svg_text(w, h, fill, d) == e.subrange(0, e.len() - t.len()) + d + t
            &&& svg_text(w, h, fill, d).len() == e.len() + d.len()
        }),
{
    let t = "\"/></svg>"@;
    let head = "<svg xmlns=\"http://www.w3.org/2000/svg\" width=\""@ + dec_chars(w as nat)
        + "\" height=\""@ + dec_chars(h as nat) + "\" viewBox=\"0 0 "@ + dec_chars(w as nat) + " "@
        + dec_chars(h as nat) + "\"><path fill=\""@ + fill + "\" fill-rule=\"evenodd\" d=\""@;
    assert(svg_text(w, h, fill, d) =~= head + d + t);
    let e = svg_text(w, h, fill, Seq::empty());
    assert(e =~= head + t);
    assert(e.subrange(0, e.len() - t.len()) =~= head);
}

/// Wraps a trace result in a standalone SVG document.
pub fn svg_document(res: &TraceResult, fill: &str) -> (svg: String)
    ensures
        svg@ == svg_text(res.width, res.height, fill@, res.path_d@),
        svg@.len() >= res.path_d@.len() + "\"/></svg>"@.len(),
        svg@.subrange(svg@.len() - res.path_d@.len() - "\"/></svg>"@.len(), svg@.len() as int)
            == res.path_d@ + "\"/></svg>"@,
{
    proof {
        lemma_svg_holds_path(res.width, res.height, fill@, res.path_d@);
        let e = svg_text(res.width, res.height, fill@, Seq::empty());
        let t = "\"/></svg>"@;
        let x = svg_text(res.width, res.height, fill@, res.path_d@);
        assert(x.subrange(x.len() - res.path_d@.len() - t.len(), x.len() as int)
            =~= res.path_d@ + t);
    }
    let mut s = String::from_str("<svg xmlns=\"http://www.w3.org/2000/svg\" width=\"");
    append_decimal(&mut s, res.width);
    s.append("\" height=\"");
    append_decimal(&mut s, res.height);
    s.append("\" viewBox=\"0 0 ");
    append_decimal(&mut s, res.width);
    s.append(" ");
    append_decimal(&mut s, res.height);
    s.append("\"><path fill=\"");
    s.append(fill);
    s.append("\" fill-rule=\"evenodd\" d=\"");
    s.append(res.path_d.as_str());
    s.append("\"/></svg>");
    s
}

} // verus!

verus! {

/// The ink mask of a gray image: 255 where the level is below `thresh`
/// (ink is dark), 0 elsewhere.
pub fn threshold_ink(gray: &[u8], thresh: u8) -> (ink: Vec<u8>)
    ensures
        ink@.len() == gray@.len(),
        forall|i: int|
            0 <= i < gray@.len() ==> #[trigger] ink@[i] == if gray@[i] < thresh {
                255u8
            } else {
                0u8
            },
{
    let mut ink: Vec<u8> = Vec::new();
    let mut i: usize = 0;
    while i < gray.len()
        invariant
            i <= gray@.len(),
            ink@.len() == i,
            forall|k: int|
                0 <= k < i ==> #[trigger] ink@[k] == if gray@[k] < thresh {
                    255u8
                } else {
                    0u8
                },
        decreases gray@.len() - i,
    {
        if gray[i] < thresh {
            ink.push(255);
        } else {
            ink.push(0);
        }
        i = i + 1;
    }
    ink
}

} // verus!
