use vstd::prelude::*;

verus! {

/// Why the layers of a block texture array could not be built.
#[derive(Clone, Copy, Debug, PartialEq, Eq, Structural)]
pub enum TextureLoadError {
    /// The file at this position is not an image that could be decoded.
    DecodeFailed(usize),
    /// An image's width differs from the array's width, given here.
    WidthMismatch(u32),
    /// There is no image at all.
    NoTextures,
}

/// What `image` decodes from a file's bytes, converted to 8-bit RGBA: width,
/// height and the pixels row by row, four bytes each; nothing when the bytes
/// are not an image it can decode.
pub uninterp spec fn decoded_rgba8(bytes: Seq<u8>) -> Option<(u32, u32, Seq<u8>)>;

/// `image::load_from_memory` followed by `to_rgba8`: the width, height and raw
/// RGBA bytes of the decoded image, or nothing when decoding fails. What the
/// decoder produces for given bytes is named, not stated.
#[verifier::external_body]
pub(crate) fn decode_rgba8(bytes: &[u8]) -> (r: Option<(u32, u32, Vec<u8>)>)
    ensures
        (match r {
            Some((w, h, p)) => decoded_rgba8(bytes@) == Some((w, h, p@)),
            None => decoded_rgba8(bytes@) is None,
        }),
{
    match image::load_from_memory(bytes) {
        Ok(img) => {
            let rgba = img.to_rgba8();
            Some((rgba.width(), rgba.height(), rgba.into_raw()))
        },
        Err(_) => None,
    }
}

/// A decoded image as width, height and pixels.
pub type Layer = (u32, u32, Seq<u8>);

/// The images of a list, each with its pixels as a sequence.
pub open spec fn layer_views(images: Seq<(u32, u32, Vec<u8>)>) -> Seq<Layer> {
    images.map_values(|t: (u32, u32, Vec<u8>)| (t.0, t.1, t.2@))
}

/// The array's width after the first `n` images: the first non-zero width
/// among them, or 0.
pub open spec fn width_before(images: Seq<Layer>, n: int) -> u32
    decreases n,
{
    if n <= 0 {
        0
    } else {
        let w = width_before(images, n - 1);
        if w == 0 {
            images[n - 1].0
        } else {
            w
        }
    }
}

/// Image `i` has a width other than the one the array already has.
pub open spec fn mismatch_at(images: Seq<Layer>, i: int) -> bool {
    width_before(images, i) != 0 && images[i].0 != width_before(images, i)
}

/// The first of the first `n` images whose width does not match, or `n`.
pub open spec fn first_mismatch(images: Seq<Layer>, n: int) -> int
    decreases n,
{
    if n <= 0 {
        0
    } else {
        let f = first_mismatch(images, n - 1);
        if f < n - 1 {
            f
        } else if mismatch_at(images, n - 1) {
            n - 1
        } else {
            n
        }
    }
}

/// The pixels of the first `n` images, one after another.
pub open spec fn pixels_before(images: Seq<Layer>, n: int) -> Seq<u8>
    decreases n,
{
    if n <= 0 {
        Seq::empty()
    } else {
        pixels_before(images, n - 1) + images[n - 1].2
    }
}

/// The texture array built from decoded images: no images is an error; the
/// first image whose width differs from the array's width is an error naming
/// that width; otherwise the width and all pixels in order.
pub open spec fn assembled(images: Seq<Layer>) -> Result<(u32, Seq<u8>), TextureLoadError> {
    let f = first_mismatch(images, images.len() as int);
    if images.len() == 0 {
        Err(TextureLoadError::NoTextures)
    } else if f < images.len() {
        Err(TextureLoadError::WidthMismatch(width_before(images, f)))
    } else {
        Ok((width_before(images, images.len() as int), pixels_before(images, images.len() as int)))
    }
}

proof fn lemma_width_scan(images: Seq<Layer>, n: int)
    requires
        0 <= n <= images.len(),
    ensures
        width_before(images, n) == 0 <==> forall|j: int| 0 <= j < n ==> #[trigger] images[j].0 == 0,
        width_before(images, n) != 0 ==> exists|j: int| 0 <= j < n && #[trigger] images[j].0 == width_before(images, n),
        first_mismatch(images, n) == n ==> forall|j: int|
            0 <= j < n ==> #[trigger] images[j].0 == width_before(images, n) || (images[j].0 == 0 && forall|i: int|
                0 <= i < j ==> #[trigger] images[i].0 == 0),
        first_mismatch(images, n) < n ==> {
            let f = first_mismatch(images, n);
            &&& 0 <= f
            &&& width_before(images, f) != 0
            &&& images[f].0 != width_before(images, f)
            &&& exists|j: int| 0 <= j < f && #[trigger] images[j].0 == width_before(images, f)
        },
    decreases n,
{
    if n > 0 {
        lemma_width_scan(images, n - 1);
        let w0 = width_before(images, n - 1);
        if first_mismatch(images, n - 1) == n - 1 && !mismatch_at(images, n - 1) {
            assert forall|j: int|
                0 <= j < n implies #[trigger] images[j].0 == width_before(images, n) || (images[j].0 == 0
                && forall|i: int| 0 <= i < j ==> #[trigger] images[i].0 == 0) by {
                if j < n - 1 && w0 == 0 {
                    assert forall|i: int| 0 <= i < j implies #[trigger] images[i].0 == 0 by {}
                }
            }
        }
        if width_before(images, n) != 0 && w0 == 0 {
            assert(images[n - 1].0 == width_before(images, n));
        }
        if first_mismatch(images, n - 1) == n - 1 && mismatch_at(images, n - 1) {
            lemma_width_scan(images, n - 1);
        }
    }
}

/// What the assembled array says of the images' widths: it is an error
/// exactly when there is no image or when an image's width differs from a
/// non-zero width that an earlier image set; otherwise every image has the
/// array's width, apart from zero-width images before the first image of
/// non-zero width, and the width is that of one of the images. A mismatch is
/// reported with the width an earlier image set, which the offending image
/// does not have.
pub proof fn lemma_assembled_widths(images: Seq<Layer>)
    ensures
        (assembled(images) == Err::<(u32, Seq<u8>), TextureLoadError>(TextureLoadError::NoTextures))
            <==> images.len() == 0,
        assembled(images) matches Ok((w, px)) ==> {
            &&& exists|j: int| 0 <= j < images.len() && #[trigger] images[j].0 == w
            &&& forall|j: int|
                0 <= j < images.len() ==> #[trigger] images[j].0 == w || (images[j].0 == 0 && forall|i: int|
                    0 <= i < j ==> #[trigger] images[i].0 == 0)
        },
        assembled(images) matches Err(TextureLoadError::WidthMismatch(w)) ==> exists|i: int, j: int|
            0 <= j < i < images.len() && #[trigger] images[j].0 == w && w != 0 && #[trigger] images[i].0 != w,
{
    let n = images.len() as int;
    lemma_width_scan(images, n);
    if n > 0 && first_mismatch(images, n) == n && width_before(images, n) == 0 {
        assert(images[0].0 == 0);
    }
    if n > 0 && first_mismatch(images, n) < n {
        let f = first_mismatch(images, n);
        let j = choose|j: int| 0 <= j < f && #[trigger] images[j].0 == width_before(images, f);
        assert(images[j].0 == width_before(images, f) && images[f].0 != width_before(images, f));
    }
}

/// Stacks decoded images into the layers of one texture array, in order.
pub fn assemble_layers(images: Vec<(u32, u32, Vec<u8>)>) -> (r: Result<(u32, Vec<u8>), TextureLoadError>)
    ensures
        (match r {
            Ok((w, px)) => assembled(layer_views(images@)) == Ok::<(u32, Seq<u8>), TextureLoadError>((w, px@)),
            Err(e) => assembled(layer_views(images@)) == Err::<(u32, Seq<u8>), TextureLoadError>(e),
        }),
{
    let ghost iv = layer_views(images@);
    let mut layers: Vec<u8> = Vec::new();
    let mut width: u32 = 0;
    let mut i: usize = 0;
    while i < images.len()
        invariant
            iv == layer_views(images@),
            iv.len() == images@.len(),
            i <= images@.len(),
            width == width_before(iv, i as int),
            first_mismatch(iv, i as int) == i,
            layers@ == pixels_before(iv, i as int),
        decreases images@.len() - i,
    {
        let w = images[i].0;
        proof {
            assert(iv[i as int] == (images@[i as int].0, images@[i as int].1, images@[i as int].2@));
        }
        if width == 0 {
            width = w;
        } else if w != width {
            proof {
                assert(mismatch_at(iv, i as int));
                assert(first_mismatch(iv, i as int + 1) == i);
                lemma_first_mismatch_stays(iv, i as int + 1, iv.len() as int);
            }
            return Err(TextureLoadError::WidthMismatch(width));
        }
        let px = &images[i].2;
        let ghost before = layers@;
        let mut j: usize = 0;
        while j < px.len()
            invariant
                j <= px@.len(),
                layers@ == before + px@.take(j as int),
            decreases px@.len() - j,
        {
            layers.push(px[j]);
            proof {
                assert(px@.take(j as int + 1) == px@.take(j as int).push(px@[j as int]));
            }
            j = j + 1;
        }
        proof {
            assert(px@.take(px@.len() as int) == px@);
        }
        i = i + 1;
    }
    if images.len() == 0 {
        return Err(TextureLoadError::NoTextures);
    }
    Ok((width, layers))
}

proof fn lemma_first_mismatch_stays(images: Seq<Layer>, n: int, m: int)
    requires
        0 <= n <= m,
        first_mismatch(images, n) < n,
    ensures
        first_mismatch(images, m) == first_mismatch(images, n),
    decreases m - n,
{
    if n < m {
        lemma_first_mismatch_stays(images, n + 1, m);
    }
}

/// The files of a list, each as its bytes.
pub open spec fn file_views(files: Seq<Vec<u8>>) -> Seq<Seq<u8>> {
    files.map_values(|f: Vec<u8>| f@)
}

/// The first of the first `n` files that does not decode, or `n`.
pub open spec fn first_undecodable(files: Seq<Seq<u8>>, n: int) -> int
    decreases n,
{
    if n <= 0 {
        0
    } else {
        let f = first_undecodable(files, n - 1);
        if f < n - 1 {
            f
        } else if decoded_rgba8(files[n - 1]) is None {
            n - 1
        } else {
            n
        }
    }
}

/// The decoded images of the first `n` files.
pub open spec fn decoded_before(files: Seq<Seq<u8>>, n: int) -> Seq<Layer> {
    Seq::new(
        n as nat,
        |j: int|
            match decoded_rgba8(files[j]) {
                Some(t) => t,
                None => (0u32, 0u32, Seq::empty()),
            },
    )
}

/// The texture array built from files, read in order: the images decoded
/// before the first file that does not decode are stacked as `assembled`
/// does; a width mismatch among them is reported, and otherwise that file's
/// position.
pub open spec fn loaded_layers(files: Seq<Seq<u8>>) -> Result<(u32, Seq<u8>), TextureLoadError> {
    let k = first_undecodable(files, files.len() as int);
    let pre = decoded_before(files, k);
    if k < files.len() {
        match assembled(pre) {
            Err(TextureLoadError::WidthMismatch(w)) => Err(TextureLoadError::WidthMismatch(w)),
            _ => Err(TextureLoadError::DecodeFailed(k as usize)),
        }
    } else {
        assembled(pre)
    }
}

proof fn lemma_first_undecodable_stays(files: Seq<Seq<u8>>, n: int, m: int)
    requires
        0 <= n <= m,
        first_undecodable(files, n) < n,
    ensures
        first_undecodable(files, m) == first_undecodable(files, n),
    decreases m - n,
{
    if n < m {
        lemma_first_undecodable_stays(files, n + 1, m);
    }
}

/// Decodes image files in order and stacks them into the layers of one
/// texture array.
pub fn texture_layers(files: &Vec<Vec<u8>>) -> (r: Result<(u32, Vec<u8>), TextureLoadError>)
    ensures
        (match r {
            Ok((w, px)) => loaded_layers(file_views(files@)) == Ok::<(u32, Seq<u8>), TextureLoadError>((w, px@)),
            Err(e) => loaded_layers(file_views(files@)) == Err::<(u32, Seq<u8>), TextureLoadError>(e),
        }),
{
    let ghost fv = file_views(files@);
    let mut decoded: Vec<(u32, u32, Vec<u8>)> = Vec::new();
    let mut i: usize = 0;
    while i < files.len()
        invariant
            fv == file_views(files@),
            fv.len() == files@.len(),
            i <= files@.len(),
            first_undecodable(fv, i as int) == i,
            layer_views(decoded@) == decoded_before(fv, i as int),
        decreases files@.len() - i,
    {
        let d = decode_rgba8(files[i].as_slice());
        proof {
            assert(fv[i as int] == files@[i as int]@);
        }
        match d {
            Some(t) => {
                let ghost old_d = decoded@;
                decoded.push(t);
                proof {
                    assert(layer_views(decoded@) == layer_views(old_d).push((t.0, t.1, t.2@)));
                    assert(layer_views(decoded@) =~= decoded_before(fv, i as int + 1));
                }
            },
            None => {
                proof {
                    assert(first_undecodable(fv, i as int + 1) == i);
                    lemma_first_undecodable_stays(fv, i as int + 1, fv.len() as int);
                }
                let a = assemble_layers(decoded);
                return match a {
                    Err(TextureLoadError::WidthMismatch(w)) => Err(TextureLoadError::WidthMismatch(w)),
                    _ => Err(TextureLoadError::DecodeFailed(i)),
                };
            },
        }
        i = i + 1;
    }
    assemble_layers(decoded)
}

/// Byte `c` of a texel of the missing-texture checkerboard: magenta where
/// the texel's column and row add up to an even number, black elsewhere.
pub open spec fn checker_byte(even: bool, c: int) -> u8 {
    if c == 1 {
        0
    } else if c == 3 {
        255
    } else if even {
        255
    } else {
        0
    }
}

/// Row `y` of a `w`-texel-wide checkerboard, four bytes per texel.
pub open spec fn checker_row(w: int, y: int) -> Seq<u8> {
    Seq::new((4 * w) as nat, |i: int| checker_byte((i / 4 + y) % 2 == 0, i % 4))
}

/// The first `rows` rows of a `w`-texel-wide checkerboard.
pub open spec fn checkerboard_rows(w: int, rows: int) -> Seq<u8>
    decreases rows,
{
    if rows <= 0 {
        Seq::empty()
    } else {
        checkerboard_rows(w, rows - 1) + checker_row(w, rows - 1)
    }
}

/// The missing-texture image: a `width` by `width` magenta and black
/// checkerboard of RGBA texels.
pub fn checkerboard(width: u32) -> (px: Vec<u8>)
    ensures
        px@ == checkerboard_rows(width as int, width as int),
{
    let mut px: Vec<u8> = Vec::new();
    let mut y: u32 = 0;
    while y < width
        invariant
            y <= width,
            px@ == checkerboard_rows(width as int, y as int),
        decreases width - y,
    {
        let ghost start = px@;
        let mut x: u32 = 0;
        while x < width
            invariant
                x <= width,
                y < width,
                px@ == start + checker_row(width as int, y as int).take(4 * x),
            decreases width - x,
        {
            let even = x % 2 == y % 2;
            let ghost row = checker_row(width as int, y as int);
            let magenta_or_black: u8 = if even { 255 } else { 0 };
            px.push(magenta_or_black);
            px.push(0);
            px.push(magenta_or_black);
            px.push(255);
            proof {
                assert(row.take(4 * x + 4) =~= row.take(4 * x).push(checker_byte(even, 0)).push(
                    checker_byte(even, 1),
                ).push(checker_byte(even, 2)).push(checker_byte(even, 3)));
            }
            x = x + 1;
        }
        proof {
            assert(checker_row(width as int, y as int).take(4 * width) =~= checker_row(width as int, y as int));
        }
        y = y + 1;
    }
    px
}

/// The layers of the block texture array: the missing-texture checkerboard
/// as layer 0, then the images of `files` in order (file `i` is layer `i + 1`).
pub fn texture_array_layers(files: &Vec<Vec<u8>>) -> (r: Result<(u32, Vec<u8>), TextureLoadError>)
    ensures
        (match loaded_layers(file_views(files@)) {
            Ok((w, px)) => r matches Ok((rw, rpx)) && rw == w && rpx@ == checkerboard_rows(w as int, w as int) + px,
            Err(e) => r == Err::<(u32, Vec<u8>), TextureLoadError>(e),
        }),
{
    match texture_layers(files) {
        Ok((width, mut px)) => {
            let mut layers = checkerboard(width);
            layers.append(&mut px);
            Ok((width, layers))
        },
        Err(e) => Err(e),
    }
}

} // verus!
