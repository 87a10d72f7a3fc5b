//! The codec: bytes in some encoding to characters, and characters back to
//! bytes in that encoding, by the `encoding_rs` crate. The crate's decoder
//! and encoder are streaming: text may be handed to them piece by piece.
//!
//! What the crate's calls return is for the most part named, not stated: a
//! decoder's answer is a function of the encoding it was made for, the
//! bytes it has read and the bytes it is given; an encoder's likewise. One
//! thing is stated: for an encoding that has a place for every character
//! the encoder is that of UTF-8, which copies the text it is given.

use crate::chars::{chars_of, string_of};
use crate::options::{str_text_of, text_of};
use encoding_rs::{Decoder, Encoder, Encoding};
use vstd::prelude::*;
use vstd::string::StringSliceAdditionalSpecFns;
use vstd::utf8::{encode_utf8, is_char_boundary};

verus! {

/// An encoding of the `encoding_rs` crate.
#[verifier::external_type_specification]
#[verifier::external_body]
pub struct ExEncoding(encoding_rs::Encoding);

/// A streaming decoder of the `encoding_rs` crate.
#[verifier::external_type_specification]
#[verifier::external_body]
pub struct ExDecoder(encoding_rs::Decoder);

/// A streaming encoder of the `encoding_rs` crate.
#[verifier::external_type_specification]
#[verifier::external_body]
pub struct ExEncoder(encoding_rs::Encoder);

/// The name of an encoding: what `Encoding::name` returns for it.
pub uninterp spec fn encoding_name(encoding: Encoding) -> Seq<char>;

/// The name of the encoding that a label stands for, if it stands for one:
/// what `Encoding::for_label` finds.
pub uninterp spec fn encoding_for_label(label: Seq<u8>) -> Option<Seq<char>>;

/// Whether an encoding has a place for every character: what
/// `Encoding::can_encode_everything` returns for it.
pub uninterp spec fn encodes_every_char(encoding: Seq<char>) -> bool;

/// The name of the encoding that a decoder was made for.
pub uninterp spec fn decoder_encoding(decoder: Decoder) -> Seq<char>;

/// Whether a decoder was told that its input has ended. Such a decoder
/// must not be used any more.
pub uninterp spec fn decoder_ended(decoder: Decoder) -> bool;

/// The bytes that a decoder has read since it was made, in order.
pub uninterp spec fn decoder_read(decoder: Decoder) -> Seq<u8>;

/// What `Decoder::max_utf8_buffer_length` returns for `byte_length`, on a
/// decoder for `encoding` that has read `read`.
pub uninterp spec fn max_decoded_length(
    encoding: Seq<char>,
    read: Seq<u8>,
    byte_length: usize,
) -> Option<usize>;

/// The text that a decoder for `encoding` that has read `read` makes of
/// `bytes`, where it reads them all and more may follow.
pub uninterp spec fn decoded_text(encoding: Seq<char>, read: Seq<u8>, bytes: Seq<u8>) -> Seq<
    char,
>;

/// The name of the encoding that an encoder was made for.
pub uninterp spec fn encoder_encoding(encoder: Encoder) -> Seq<char>;

/// The text that an encoder has read since it was made, as UTF-8.
pub uninterp spec fn encoder_read(encoder: Encoder) -> Seq<u8>;

/// What `Encoder::max_buffer_length_from_utf8_if_no_unmappables` returns
/// for `byte_length`, on an encoder for `encoding` that has read `read`.
pub uninterp spec fn max_encoded_length(
    encoding: Seq<char>,
    read: Seq<u8>,
    byte_length: usize,
) -> Option<usize>;

/// The bytes that an encoder for `encoding` that has read `read` makes of
/// the text `text`, given as UTF-8, where it reads all of it and more may
/// follow.
pub uninterp spec fn encoded_bytes(encoding: Seq<char>, read: Seq<u8>, text: Seq<u8>) -> Seq<
    u8,
>;

/// There is room for what is wanted: the number is known and no more than
/// the capacity.
pub open spec fn has_room(wanted: Option<usize>, capacity: usize) -> bool {
    match wanted {
        Some(w) => w <= capacity,
        None => false,
    }
}

/// `Encoding::for_label` looks the label up among those of the Encoding
/// Standard, ignoring case and surrounding white space. Which encoding it
/// finds for a label, if any, is not stated here, only named.
pub assume_specification[ Encoding::for_label ](label: &[u8]) -> (r: Option<&'static Encoding>)
    ensures
        r.is_some() == encoding_for_label(label@).is_some(),
        r matches Some(encoding) ==> encoding_for_label(label@) == Some(encoding_name(*encoding)),
;

/// `Encoding::name` returns the name of the encoding.
pub assume_specification[ Encoding::name ](encoding: &'static Encoding) -> (r: &'static str)
    ensures
        r@ == encoding_name(*encoding),
;

/// `Encoding::can_encode_everything` tells whether the encoding has a place
/// for every character.
pub assume_specification[ Encoding::can_encode_everything ](encoding: &'static Encoding) -> (r:
    bool)
    ensures
        r == encodes_every_char(encoding_name(*encoding)),
;

/// `Encoding::new_decoder` makes a decoder for the encoding that has read
/// nothing yet and was not told that its input has ended.
pub assume_specification[ Encoding::new_decoder ](encoding: &'static Encoding) -> (r: Decoder)
    ensures
        decoder_encoding(r) == encoding_name(*encoding),
        decoder_read(r) == Seq::<u8>::empty(),
        !decoder_ended(r),
;

/// `Encoding::new_encoder` makes an encoder for the encoding that has read
/// nothing yet.
pub assume_specification[ Encoding::new_encoder ](encoding: &'static Encoding) -> (r: Encoder)
    ensures
        encoder_encoding(r) == encoding_name(*encoding),
        encoder_read(r) == Seq::<u8>::empty(),
;

/// The UTF-8 encoding, `encoding_rs::UTF_8`. Its name is `UTF-8`, and it
/// has a place for every character.
#[verifier::external_body]
fn utf_8_encoding() -> (r: &'static Encoding)
    ensures
        encoding_name(*r) == "UTF-8"@,
        encodes_every_char(encoding_name(*r)),
{
    encoding_rs::UTF_8
}

/// `Decoder::max_utf8_buffer_length`: how many bytes of UTF-8 the decoder
/// may put out for `byte_length` more bytes of input, or `None` where that
/// number does not fit. The number is named. The call panics on a decoder
/// that was told that its input has ended.
#[verifier::external_body]
fn max_utf8_buffer_length(decoder: &Decoder, byte_length: usize) -> (r: Option<usize>)
    requires
        !decoder_ended(*decoder),
    ensures
        r == max_decoded_length(decoder_encoding(*decoder), decoder_read(*decoder), byte_length),
{
    decoder.max_utf8_buffer_length(byte_length)
}

/// `Decoder::decode_to_string`, on a fresh string of the given capacity and
/// with more input to come. The capacity is at least what
/// `max_utf8_buffer_length` asks for these bytes, and with that much room
/// the decoder reads all of them. It returns how many bytes it read and the
/// text it made of them; the text is named. The call panics on a decoder
/// that was told that its input has ended; this call does not tell it so.
/// A string cannot be made with a capacity beyond `isize::MAX`.
#[verifier::external_body]
fn decode_to_string(decoder: &mut Decoder, src: &[u8], capacity: usize) -> (r: (usize, String))
    requires
        !decoder_ended(*old(decoder)),
        capacity <= isize::MAX,
        has_room(
            max_decoded_length(
                decoder_encoding(*old(decoder)),
                decoder_read(*old(decoder)),
                src@.len() as usize,
            ),
            capacity,
        ),
    ensures
        r.0 == src@.len(),
        r.1@ == decoded_text(decoder_encoding(*old(decoder)), decoder_read(*old(decoder)), src@),
        decoder_encoding(*final(decoder)) == decoder_encoding(*old(decoder)),
        decoder_read(*final(decoder)) == decoder_read(*old(decoder)) + src@,
        !decoder_ended(*final(decoder)),
{
    let mut dst = String::with_capacity(capacity);
    let (_, read, _) = decoder.decode_to_string(src, &mut dst, false);
    (read, dst)
}

/// `Encoder::max_buffer_length_from_utf8_if_no_unmappables`: how many bytes
/// the encoder may put out for `byte_length` more bytes of UTF-8 in which
/// every character has a place in the encoding, or `None` where that number
/// does not fit. The number is named. For an encoding that has a place for
/// every character the encoder is that of UTF-8, and the number is
/// `byte_length` itself.
#[verifier::external_body]
fn max_buffer_length_from_utf8(encoder: &Encoder, byte_length: usize) -> (r: Option<usize>)
    ensures
        r == max_encoded_length(encoder_encoding(*encoder), encoder_read(*encoder), byte_length),
        encodes_every_char(encoder_encoding(*encoder)) ==> r == Some(byte_length),
{
    encoder.max_buffer_length_from_utf8_if_no_unmappables(byte_length)
}

/// `Encoder::encode_from_utf8_to_vec`, on a fresh vector of the given
/// capacity and with more input to come. It returns how many bytes of `src`
/// it read, which are never more than there are, and the bytes it encoded.
/// Where it read all of `src`, the bytes are named, and the encoder has
/// then read `src` as well. It reads all of `src` where the encoding has a
/// place for every character and the capacity is at least what
/// `max_buffer_length_from_utf8_if_no_unmappables` asks. Where it stopped
/// short, nothing is claimed of what it has read, nor of the bytes, but
/// for an encoding that has a place for every character: its encoder is
/// that of UTF-8, which copies what it reads. A vector cannot be made with
/// a capacity beyond `isize::MAX`.
#[verifier::external_body]
fn encode_from_utf8_to_vec(encoder: &mut Encoder, src: &str, capacity: usize) -> (r: (
    usize,
    Vec<u8>,
))
    requires
        capacity <= isize::MAX,
    ensures
        r.0 <= src.spec_bytes().len(),
        encoder_encoding(*final(encoder)) == encoder_encoding(*old(encoder)),
        r.0 == src.spec_bytes().len() ==> r.1@ == encoded_bytes(
            encoder_encoding(*old(encoder)),
            encoder_read(*old(encoder)),
            src.spec_bytes(),
        ),
        r.0 == src.spec_bytes().len() ==> encoder_read(*final(encoder)) == encoder_read(
            *old(encoder),
        ) + src.spec_bytes(),
        encodes_every_char(encoder_encoding(*old(encoder))) && has_room(
            max_encoded_length(
                encoder_encoding(*old(encoder)),
                encoder_read(*old(encoder)),
                src.spec_bytes().len() as usize,
            ),
            capacity,
        ) ==> r.0 == src.spec_bytes().len(),
        encodes_every_char(encoder_encoding(*old(encoder))) ==> r.1@ == src.spec_bytes().take(
            r.0 as int,
        ),
{
    let mut dst: Vec<u8> = Vec::with_capacity(capacity);
    let (_, read, _) = encoder.encode_from_utf8_to_vec(src, &mut dst, false);
    (read, dst)
}

/// A decoder and an encoder for one encoding, for one stream.
pub struct Codec {
    label: Option<String>,
    encoding: &'static Encoding,
    decoder: Decoder,
    encoder: Encoder,
}

/// Where a codec stands in its stream.
pub struct CodecModel {
    /// The label that the codec was made for; none for the codec of UTF-8
    /// that is used where no encoding is asked for.
    pub label: Option<Seq<char>>,
    /// The name of the codec's encoding.
    pub encoding: Seq<char>,
    /// The bytes that the decoder has read so far, in order.
    pub decoded: Seq<u8>,
    /// The text that the encoder has read so far, as UTF-8.
    pub encoded: Seq<u8>,
}

impl View for Codec {
    type V = CodecModel;

    closed spec fn view(&self) -> CodecModel {
        CodecModel {
            label: text_of(self.label),
            encoding: decoder_encoding(self.decoder),
            decoded: decoder_read(self.decoder),
            encoded: encoder_read(self.encoder),
        }
    }
}

/// A codec for `encoding` that was made for `label` and has read nothing
/// yet.
pub open spec fn fresh_codec(label: Option<Seq<char>>, encoding: Seq<char>) -> CodecModel {
    CodecModel { label, encoding, decoded: Seq::empty(), encoded: Seq::empty() }
}

/// The name of the encoding that is used for `label`: the one that the
/// label stands for, and UTF-8 where there is no label.
pub open spec fn encoding_chosen(label: Option<Seq<char>>) -> Option<Seq<char>> {
    match label {
        Some(l) => encoding_for_label(encode_utf8(l)),
        None => Some("UTF-8"@),
    }
}

/// The room that may be asked for: the room that the codec wants, unless it
/// could not say or wants more than a string or vector can have.
pub open spec fn usable_capacity_of(wanted: Option<usize>) -> Option<usize> {
    match wanted {
        Some(c) => if c <= isize::MAX {
            Some(c)
        } else {
            None
        },
        None => None,
    }
}

/// The room that may be asked for, for the room that the codec wants.
pub fn usable_capacity(wanted: Option<usize>) -> (r: Option<usize>)
    ensures
        r == usable_capacity_of(wanted),
{
    match wanted {
        Some(c) => if c <= isize::MAX as usize {
            Some(c)
        } else {
            None
        },
        None => None,
    }
}

/// What is left of `text` for the encoder once it has read the first `read`
/// bytes of it: the text behind them. Nothing is left to go on with where
/// it read nothing, or stopped inside a character.
pub fn rest_after(text: &str, read: usize) -> (r: Option<&str>)
    ensures
        r.is_some() == (read > 0 && is_char_boundary(text.spec_bytes(), read as int)),
        r matches Some(rest) ==> rest.spec_bytes() == text.spec_bytes().skip(read as int),
{
    if read == 0 || !text.is_char_boundary(read) {
        None
    } else {
        let (_, rest) = text.split_at(read);
        Some(rest)
    }
}

/// How many of `len` bytes a codec reads when it decodes them: all of
/// them, unless the decoder cannot say how much room the text may take, or
/// wants more than a string can have; then none.
pub open spec fn decode_count(codec: CodecModel, len: nat) -> nat {
    if len > 0 && usable_capacity_of(
        max_decoded_length(codec.encoding, codec.decoded, len as usize),
    ).is_some() {
        len
    } else {
        0
    }
}

/// The text that a codec makes of `bytes` when it decodes them.
pub open spec fn decoded_by(codec: CodecModel, bytes: Seq<u8>) -> Seq<char> {
    if decode_count(codec, bytes.len()) == 0 {
        Seq::empty()
    } else {
        decoded_text(codec.encoding, codec.decoded, bytes)
    }
}

/// The codec after it has decoded `bytes`: the decoder stands behind the
/// bytes it read.
pub open spec fn after_decoding(codec: CodecModel, bytes: Seq<u8>) -> CodecModel {
    CodecModel {
        decoded: codec.decoded + bytes.take(decode_count(codec, bytes.len()) as int),
        ..codec
    }
}

/// The codec after its encoder has read `text` whole.
pub open spec fn after_encoding(codec: CodecModel, text: Seq<char>) -> CodecModel {
    CodecModel { encoded: codec.encoded + encode_utf8(text), ..codec }
}

impl Codec {
    /// The decoder and the encoder are for the codec's encoding, and the
    /// decoder was not told that its input has ended.
    pub closed spec fn wf(&self) -> bool {
        &&& decoder_encoding(self.decoder) == encoding_name(*self.encoding)
        &&& encoder_encoding(self.encoder) == encoding_name(*self.encoding)
        &&& !decoder_ended(self.decoder)
    }

    /// The codec for `encoding`, made for `label`, that has read nothing.
    fn for_encoding(encoding: &'static Encoding, label: Option<String>) -> (r: Codec)
        ensures
            r.wf(),
            r@ == fresh_codec(text_of(label), encoding_name(*encoding)),
    {
        Codec {
            label,
            encoding,
            decoder: encoding.new_decoder(),
            encoder: encoding.new_encoder(),
        }
    }

    /// The codec for UTF-8, for where no encoding is asked for: it was made
    /// for no label and has read nothing.
    pub fn utf_8() -> (r: Codec)
        ensures
            r.wf(),
            r@ == fresh_codec(None, "UTF-8"@),
            encodes_every_char(r@.encoding),
    {
        Codec::for_encoding(utf_8_encoding(), None)
    }

    /// The codec for the encoding that `label` stands for, if it stands for
    /// one: it was made for `label` and has read nothing.
    pub fn for_label(label: &str) -> (r: Option<Codec>)
        ensures
            r.is_some() == encoding_for_label(encode_utf8(label@)).is_some(),
            r matches Some(codec) ==> codec.wf() && encoding_for_label(encode_utf8(label@))
                == Some(codec@.encoding) && codec@ == fresh_codec(
                Some(label@),
                codec@.encoding,
            ),
    {
        match Encoding::for_label(label.as_bytes()) {
            Some(encoding) => Some(Codec::for_encoding(encoding, Some(String::from_str(label)))),
            None => None,
        }
    }

    /// The label that the codec was made for.
    pub fn label(&self) -> (r: Option<&str>)
        ensures
            str_text_of(r) == self@.label,
    {
        match &self.label {
            Some(label) => Some(label.as_str()),
            None => None,
        }
    }

    /// The name of the codec's encoding.
    pub fn name(&self) -> (r: &'static str)
        requires
            self.wf(),
        ensures
            r@ == self@.encoding,
    {
        self.encoding.name()
    }

    /// Whether the codec's encoding has a place for every character.
    pub fn can_encode_everything(&self) -> (r: bool)
        requires
            self.wf(),
        ensures
            r == encodes_every_char(self@.encoding),
    {
        self.encoding.can_encode_everything()
    }

    /// Decodes the next bytes of the stream. It returns how many of them
    /// the decoder read, and the characters they gave; the decoder then
    /// stands behind the bytes it read. It reads all the bytes, unless there
    /// are none, or the decoder cannot say how much room the text may take,
    /// or wants more than a string can have: then it reads nothing. Bytes
    /// that were not read are to be handed in again, in front of those that
    /// follow.
    pub fn decode(&mut self, bytes: &[u8]) -> (r: (usize, Vec<char>))
        requires
            old(self).wf(),
        ensures
            final(self).wf(),
            r.0 == decode_count(old(self)@, bytes@.len()),
            r.1@ == decoded_by(old(self)@, bytes@),
            final(self)@ == after_decoding(old(self)@, bytes@),
    {
        assert(self@.decoded + bytes@.take(0) =~= self@.decoded);
        if bytes.len() == 0 {
            return (0, Vec::new());
        }
        match usable_capacity(max_utf8_buffer_length(&self.decoder, bytes.len())) {
            Some(capacity) => {
                let (read, text) = decode_to_string(&mut self.decoder, bytes, capacity);
                assert(bytes@.take(read as int) =~= bytes@);
                (read, chars_of(text.as_str()))
            },
            None => (0, Vec::new()),
        }
    }

    /// Encodes the next characters of the stream. Where the encoder stops
    /// short of the end of the text, it is called again on what is left, as
    /// long as it gets anywhere and a vector can have the room it asks for.
    /// For an encoding that has a place for every character, the bytes are
    /// the text as UTF-8, and the encoder then stands behind the text. An
    /// empty text gives nothing and changes nothing. The decoder stays
    /// where it is.
    pub fn encode(&mut self, text: &Vec<char>) -> (r: Vec<u8>)
        requires
            old(self).wf(),
        ensures
            final(self).wf(),
            final(self)@.label == old(self)@.label,
            final(self)@.encoding == old(self)@.encoding,
            final(self)@.decoded == old(self)@.decoded,
            text@.len() == 0 ==> r@.len() == 0 && final(self)@ == old(self)@,
            encodes_every_char(old(self)@.encoding) ==> r@ == encode_utf8(text@) && final(self)@
                == after_encoding(old(self)@, text@),
    {
        let mut out: Vec<u8> = Vec::new();
        if text.len() == 0 {
            assert(self@.encoded + encode_utf8(text@) =~= self@.encoded);
            return out;
        }
        let whole = string_of(text);
        let length = whole.len();
        let mut rest: &str = whole.as_str();
        let capacity = match usable_capacity(max_buffer_length_from_utf8(&self.encoder, length)) {
            Some(c) => c,
            None => {
                return out;
            },
        };
        let (read, mut bytes) = encode_from_utf8_to_vec(&mut self.encoder, rest, capacity);
        out.append(&mut bytes);
        proof {
            assert(Seq::<u8>::empty() + bytes@ =~= bytes@);
            assert(rest.spec_bytes().take(length as int) =~= rest.spec_bytes());
        }
        if read == length {
            return out;
        }
        match rest_after(rest, read) {
            Some(tail) => {
                rest = tail;
            },
            None => {
                return out;
            },
        }
        while rest.len() > 0
            invariant
                self.wf(),
                self@.label == old(self)@.label,
                self@.encoding == old(self)@.encoding,
                self@.decoded == old(self)@.decoded,
                text@.len() > 0,
                !encodes_every_char(old(self)@.encoding),
            decreases rest.spec_bytes().len(),
        {
            let capacity = match usable_capacity(
                max_buffer_length_from_utf8(&self.encoder, rest.len()),
            ) {
                Some(c) => c,
                None => {
                    break ;
                },
            };
            let (read, mut bytes) = encode_from_utf8_to_vec(&mut self.encoder, rest, capacity);
            out.append(&mut bytes);
            match rest_after(rest, read) {
                Some(tail) => {
                    rest = tail;
                },
                None => {
                    break ;
                },
            }
        }
        out
    }
}

} // verus!
