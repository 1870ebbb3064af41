//! FITS header metadata: reading the 80-character cards of a primary header
//! into a keyword map, deriving the image geometry from it, and formatting a
//! summary for display.

use vstd::prelude::*;
use vstd::string::StringExecFns;
use vstd::utf8::{valid_utf8, decode_utf8};
use crate::header_map::HeaderMap;
use crate::text::{chars_of, string_of, trim, strip, starts_with, find_char, trim_range, strip_range,
    range_starts_with, range_find, decimal, decimal_string, signed_decimal, signed_decimal_string, parse_usize_spec, parse_i32_spec,
    parse_usize_range, parse_i32_range, contains_seq};

verus! {

broadcast use vstd::string::group_string_axioms;

/// Metadata of one FITS file.
#[derive(Debug)]
pub struct FitsMetadata {
    pub filename: String,
    pub headers: Vec<HeaderInfo>,
    pub primary_header: HeaderMap,
    pub image_info: Option<ImageInfo>,
}

/// The keywords of one header data unit.
#[derive(Debug)]
pub struct HeaderInfo {
    pub hdu_index: usize,
    pub hdu_name: Option<String>,
    pub keywords: HeaderMap,
}

/// Image geometry from the `NAXIS*` and `BITPIX` keywords.
#[derive(Debug)]
pub struct ImageInfo {
    pub width: usize,
    pub height: usize,
    pub bit_depth: i32,
    pub dimensions: Vec<usize>,
}

/// `std::str::from_utf8`: the text of `bytes` exactly when they are well-formed UTF-8.
#[verifier::external_body]
fn str_from_utf8(bytes: &[u8]) -> (r: Option<&str>)
    ensures
        r is Some == valid_utf8(bytes@),
        r matches Some(s) ==> s@ == decode_utf8(bytes@),
{
    std::str::from_utf8(bytes).ok()
}

/// The card, trimmed, begins with `END`.
pub open spec fn card_is_end(card: Seq<char>) -> bool {
    starts_with(trim(card), seq!['E', 'N', 'D'])
}

/// The trimmed card is blank or a `COMMENT` or `HISTORY` card.
pub open spec fn card_is_note(t: Seq<char>) -> bool {
    ||| t.len() == 0
    ||| starts_with(t, seq!['C', 'O', 'M', 'M', 'E', 'N', 'T'])
    ||| starts_with(t, seq!['H', 'I', 'S', 'T', 'O', 'R', 'Y'])
}

/// The value part after `=`: up to a `/` comment if there is one, trimmed,
/// stripped of surrounding single and then double quotes, and trimmed again.
pub open spec fn card_value(vp: Seq<char>) -> Seq<char> {
    let v = match find_char(vp, '/') {
        Some(c) => trim(vp.subrange(0, c)),
        None => trim(vp),
    };
    trim(strip(strip(v, '\''), '"'))
}

/// The keyword and value of a `KEYWORD = VALUE / COMMENT` card, if it is one
/// with a non-empty keyword (and not an end, blank or note card).
pub open spec fn card_entry(card: Seq<char>) -> Option<(Seq<char>, Seq<char>)> {
    let t = trim(card);
    if card_is_end(card) || card_is_note(t) {
        None
    } else {
        match find_char(t, '=') {
            None => None,
            Some(e) => {
                let kw = trim(t.subrange(0, e));
                if kw.len() > 0 {
                    Some((kw, card_value(t.subrange(e + 1, t.len() as int))))
                } else {
                    None
                }
            },
        }
    }
}

/// Keywords read from the 80-byte cards of `data` into `m`, in order, until an
/// `END` card; cards that are not well-formed UTF-8 are skipped, and a later
/// card overrides an earlier one with the same keyword.
pub open spec fn header_scan(data: Seq<u8>, m: Map<Seq<char>, Seq<char>>) -> Map<Seq<char>, Seq<char>>
    decreases data.len(),
{
    if data.len() == 0 {
        m
    } else {
        let n = if data.len() < 80 { data.len() as int } else { 80 };
        let card = data.subrange(0, n);
        let rest = data.subrange(n, data.len() as int);
        if !valid_utf8(card) {
            header_scan(rest, m)
        } else if card_is_end(decode_utf8(card)) {
            m
        } else {
            match card_entry(decode_utf8(card)) {
                Some(kv) => header_scan(rest, m.insert(kv.0, kv.1)),
                None => header_scan(rest, m),
            }
        }
    }
}

/// The keyword map of a primary header.
pub open spec fn parsed_header(data: Seq<u8>) -> Map<Seq<char>, Seq<char>> {
    header_scan(data, Map::empty())
}

/// A `HISTORY` or `COMMENT` card adds no keyword: reading a header whose
/// first 80-byte card reads, trimmed, as `HISTORY ...` or `COMMENT ...` gives
/// the same keywords as reading the cards after it, whatever text (an `=`
/// among it too) the card carries.
pub proof fn law_note_cards_add_no_keyword(card: Seq<u8>, rest: Seq<u8>, m: Map<Seq<char>, Seq<char>>)
    requires
        card.len() == 80,
        valid_utf8(card),
        starts_with(trim(decode_utf8(card)), seq!['H', 'I', 'S', 'T', 'O', 'R', 'Y'])
            || starts_with(trim(decode_utf8(card)), seq!['C', 'O', 'M', 'M', 'E', 'N', 'T']),
    ensures
        header_scan(card + rest, m) == header_scan(rest, m),
{
    let data = card + rest;
    assert(data.subrange(0, 80) =~= card);
    assert(data.subrange(80, data.len() as int) =~= rest);
    let t = trim(decode_utf8(card));
    assert(t[0] == 'H' || t[0] == 'C') by {
        if starts_with(t, seq!['H', 'I', 'S', 'T', 'O', 'R', 'Y']) {
            assert(t.subrange(0, 7)[0] == 'H');
        } else {
            assert(t.subrange(0, 7)[0] == 'C');
        }
    }
    assert(!card_is_end(decode_utf8(card))) by {
        if starts_with(t, seq!['E', 'N', 'D']) {
            assert(t.subrange(0, 3)[0] == 'E');
        }
    }
}

/// A header of one `HISTORY` card followed by an `END` card has no keywords.
pub proof fn law_history_then_end_is_empty(card: Seq<u8>, end: Seq<u8>, rest: Seq<u8>)
    requires
        card.len() == 80,
        valid_utf8(card),
        starts_with(trim(decode_utf8(card)), seq!['H', 'I', 'S', 'T', 'O', 'R', 'Y']),
        end.len() == 80,
        valid_utf8(end),
        card_is_end(decode_utf8(end)),
    ensures
        parsed_header(card + end + rest) == Map::<Seq<char>, Seq<char>>::empty(),
{
    assert(card + end + rest =~= card + (end + rest));
    law_note_cards_add_no_keyword(card, end + rest, Map::empty());
    let data = end + rest;
    assert(data.subrange(0, 80) =~= end);
}

/// What one card holds.
enum Card {
    End,
    Skip,
    Entry(String, String),
}

/// Reads one card.
fn read_card(cs: &Vec<char>) -> (r: Card)
    ensures
        match r {
            Card::End => card_is_end(cs@),
            Card::Skip => !card_is_end(cs@) && card_entry(cs@) is None,
            Card::Entry(k, v) => !card_is_end(cs@) && card_entry(cs@) == Some((k@, v@)),
        },
{
    let n = cs.len();
    let (a, b) = trim_range(cs.as_slice(), 0, n);
    let ghost t = cs@.subrange(a as int, b as int);
    proof {
        assert(cs@.subrange(0, n as int) =~= cs@);
    }
    let end_word: [char; 3] = ['E', 'N', 'D'];
    let comment_word: [char; 7] = ['C', 'O', 'M', 'M', 'E', 'N', 'T'];
    let history_word: [char; 7] = ['H', 'I', 'S', 'T', 'O', 'R', 'Y'];
    proof {
        assert(end_word@ =~= seq!['E', 'N', 'D']);
        assert(comment_word@ =~= seq!['C', 'O', 'M', 'M', 'E', 'N', 'T']);
        assert(history_word@ =~= seq!['H', 'I', 'S', 'T', 'O', 'R', 'Y']);
    }
    if range_starts_with(cs.as_slice(), a, b, end_word.as_slice()) {
        return Card::End;
    }
    if a == b || range_starts_with(cs.as_slice(), a, b, comment_word.as_slice())
        || range_starts_with(cs.as_slice(), a, b, history_word.as_slice()) {
        return Card::Skip;
    }
    match range_find(cs.as_slice(), a, b, '=') {
        None => Card::Skip,
        Some(e) => {
            let eq = a + e;
            let (ka, kb) = trim_range(cs.as_slice(), a, eq);
            proof {
                assert(t.subrange(0, e as int) =~= cs@.subrange(a as int, eq as int));
            }
            if ka == kb {
                return Card::Skip;
            }
            let vstart = eq + 1;
            let ghost vp = cs@.subrange(vstart as int, b as int);
            proof {
                assert(t.subrange(e as int + 1, t.len() as int) =~= vp);
            }
            let (va, vb) = match range_find(cs.as_slice(), vstart, b, '/') {
                Some(c) => {
                    proof {
                        assert(vp.subrange(0, c as int) =~= cs@.subrange(vstart as int, vstart as int + c as int));
                    }
                    trim_range(cs.as_slice(), vstart, vstart + c)
                },
                None => trim_range(cs.as_slice(), vstart, b),
            };
            let (sa, sb) = strip_range(cs.as_slice(), va, vb, '\'');
            let (ta, tb) = strip_range(cs.as_slice(), sa, sb, '"');
            let (ca, cb) = trim_range(cs.as_slice(), ta, tb);
            let key = string_of(cs.as_slice(), ka, kb);
            let value = string_of(cs.as_slice(), ca, cb);
            Card::Entry(key, value)
        },
    }
}

/// Reads the keywords of a primary header from its 80-byte cards.
pub fn parse_fits_header(data: &[u8]) -> (r: HeaderMap)
    ensures
        r@ == parsed_header(data@),
{
    let mut m = HeaderMap::new();
    let len = data.len();
    let mut off: usize = 0;
    proof {
        assert(data@.subrange(0, len as int) =~= data@);
    }
    while off < len
        invariant
            len == data@.len(),
            off <= len,
            header_scan(data@.subrange(off as int, len as int), m@) == parsed_header(data@),
        decreases len - off,
    {
        let n = if len - off < 80 { len - off } else { 80 };
        let chunk = vstd::slice::slice_subrange(data, off, off + n);
        let ghost rest = data@.subrange(off as int, len as int);
        proof {
            assert(rest.subrange(0, n as int) =~= chunk@);
            assert(rest.subrange(n as int, rest.len() as int) =~= data@.subrange(off + n, len as int));
        }
        match str_from_utf8(chunk) {
            None => {},
            Some(s) => {
                let cs = chars_of(s);
                match read_card(&cs) {
                    Card::End => {
                        return m;
                    },
                    Card::Skip => {},
                    Card::Entry(k, v) => {
                        m.insert(k, v);
                    },
                }
            },
        }
        off = off + n;
    }
    m
}

/// The bytes `END ` occur in `block`.
pub open spec fn holds_end_marker(block: Seq<u8>) -> bool {
    exists|i: int| 0 <= i && i + 4 <= block.len() && #[trigger] block.subrange(i, i + 4) == seq![69u8, 78u8, 68u8, 32u8]
}

/// Whether a 2880-byte header block holds the text `END ` (so that the header
/// ends in it).
pub fn block_has_end(block: &[u8]) -> (r: bool)
    ensures
        r == holds_end_marker(block@),
{
    let n = block.len();
    if n < 4 {
        return false;
    }
    let mut i: usize = 0;
    while i <= n - 4
        invariant
            n == block@.len(),
            n >= 4,
            i <= n - 3,
            forall|j: int| 0 <= j < i ==> #[trigger] block@.subrange(j, j + 4) != seq![69u8, 78u8, 68u8, 32u8],
        decreases n - i,
    {
        if block[i] == 69 && block[i + 1] == 78 && block[i + 2] == 68 && block[i + 3] == 32 {
            proof {
                assert(block@.subrange(i as int, i + 4) =~= seq![69u8, 78u8, 68u8, 32u8]);
            }
            return true;
        }
        proof {
            let w = block@.subrange(i as int, i + 4);
            if w == seq![69u8, 78u8, 68u8, 32u8] {
                assert(w[0] == block@[i as int] && w[1] == block@[i + 1] && w[2] == block@[i + 2] && w[3] == block@[i + 3]);
            }
        }
        i = i + 1;
    }
    false
}

/// Dimensions from the keywords `NAXIS1` to `NAXISk`: the values that are
/// present and read as `usize`, in order.
pub open spec fn naxis_dims(h: Map<Seq<char>, Seq<char>>, k: nat) -> Seq<usize>
    decreases k,
{
    if k == 0 {
        Seq::empty()
    } else {
        let prev = naxis_dims(h, (k - 1) as nat);
        let key = "NAXIS"@ + decimal(k);
        if h.dom().contains(key) && parse_usize_spec(h[key]) is Some {
            prev.push(parse_usize_spec(h[key])->0 as usize)
        } else {
            prev
        }
    }
}

/// The image dimensions a header declares: `naxis_dims` up to the `NAXIS`
/// value when that reads as a positive `usize`, none otherwise.
pub open spec fn image_dims(h: Map<Seq<char>, Seq<char>>) -> Seq<usize> {
    if h.dom().contains("NAXIS"@) && parse_usize_spec(h["NAXIS"@]) is Some && parse_usize_spec(h["NAXIS"@])->0 > 0 {
        naxis_dims(h, parse_usize_spec(h["NAXIS"@])->0 as nat)
    } else {
        Seq::empty()
    }
}

/// `BITPIX` read as `i32`, or 0.
pub open spec fn bit_depth_of(h: Map<Seq<char>, Seq<char>>) -> int {
    if h.dom().contains("BITPIX"@) && parse_i32_spec(h["BITPIX"@]) is Some {
        parse_i32_spec(h["BITPIX"@])->0
    } else {
        0
    }
}

/// The value stored for `key`, read as `usize`.
fn get_usize(h: &HeaderMap, key: &str) -> (r: Option<usize>)
    ensures
        match r {
            Some(v) => h@.dom().contains(key@) && parse_usize_spec(h@[key@]) == Some(v as int),
            None => !(h@.dom().contains(key@) && parse_usize_spec(h@[key@]) is Some),
        },
{
    match h.get(key) {
        None => None,
        Some(v) => {
            let cs = chars_of(v.as_str());
            proof {
                assert(cs@.subrange(0, cs@.len() as int) =~= cs@);
            }
            parse_usize_range(cs.as_slice(), 0, cs.len())
        },
    }
}

/// The value stored for `key`, read as `i32`.
fn get_i32(h: &HeaderMap, key: &str) -> (r: Option<i32>)
    ensures
        match r {
            Some(v) => h@.dom().contains(key@) && parse_i32_spec(h@[key@]) == Some(v as int),
            None => !(h@.dom().contains(key@) && parse_i32_spec(h@[key@]) is Some),
        },
{
    match h.get(key) {
        None => None,
        Some(v) => {
            let cs = chars_of(v.as_str());
            proof {
                assert(cs@.subrange(0, cs@.len() as int) =~= cs@);
            }
            parse_i32_range(cs.as_slice(), 0, cs.len())
        },
    }
}

/// The image geometry a header declares.
fn image_info_of(h: &HeaderMap) -> (r: Option<ImageInfo>)
    ensures
        r is Some <==> image_dims(h@).len() >= 2,
        r matches Some(info) ==> info.dimensions@ == image_dims(h@) && info.width == image_dims(h@)[0]
            && info.height == image_dims(h@)[1] && info.bit_depth as int == bit_depth_of(h@),
{
    let naxis = match get_usize(h, "NAXIS") {
        Some(n) => n,
        None => 0,
    };
    if naxis == 0 {
        return None;
    }
    let mut dimensions: Vec<usize> = Vec::new();
    let mut k: usize = 0;
    while k < naxis
        invariant
            k <= naxis,
            dimensions@ == naxis_dims(h@, k as nat),
        decreases naxis - k,
    {
        let i = k + 1;
        let mut key = String::from_str("NAXIS");
        let digits = decimal_string(i as u64);
        key.append(digits.as_str());
        match get_usize(h, key.as_str()) {
            Some(dim) => {
                dimensions.push(dim);
            },
            None => {},
        }
        k = k + 1;
    }
    if dimensions.len() >= 2 {
        let width = dimensions[0];
        let height = dimensions[1];
        let bit_depth = match get_i32(h, "BITPIX") {
            Some(b) => b,
            None => 0,
        };
        Some(ImageInfo { width, height, bit_depth, dimensions })
    } else {
        None
    }
}

/// Metadata of a FITS file from its name and the bytes of its primary header:
/// the keyword map, a single header unit with index 0 named by `EXTNAME`, and
/// the image geometry when the header declares at least two dimensions.
pub fn metadata_from_header(filename: String, header_data: &[u8]) -> (md: FitsMetadata)
    ensures
        md.filename@ == filename@,
        md.primary_header@ == parsed_header(header_data@),
        md.headers@.len() == 1,
        md.headers@[0].hdu_index == 0,
        md.headers@[0].keywords@ == parsed_header(header_data@),
        match md.headers@[0].hdu_name {
            Some(n) => parsed_header(header_data@).dom().contains("EXTNAME"@) && n@ == parsed_header(header_data@)["EXTNAME"@],
            None => !parsed_header(header_data@).dom().contains("EXTNAME"@),
        },
        md.image_info is Some <==> image_dims(parsed_header(header_data@)).len() >= 2,
        md.image_info matches Some(info) ==> ({
            let dims = image_dims(parsed_header(header_data@));
            &&& info.dimensions@ == dims
            &&& info.width == dims[0]
            &&& info.height == dims[1]
            &&& info.bit_depth as int == bit_depth_of(parsed_header(header_data@))
        }),
{
    let keywords = parse_fits_header(header_data);
    let primary_header = keywords.duplicate();
    let image_info = image_info_of(&keywords);
    let hdu_name = match keywords.get("EXTNAME") {
        Some(n) => Some(n.clone()),
        None => None,
    };
    let mut headers: Vec<HeaderInfo> = Vec::new();
    headers.push(HeaderInfo { hdu_index: 0, hdu_name, keywords });
    FitsMetadata { filename, headers, primary_header, image_info }
}

/// The value of the first of `keys` that `h` holds.
pub open spec fn first_value(h: Map<Seq<char>, Seq<char>>, keys: Seq<Seq<char>>) -> Option<Seq<char>>
    decreases keys.len(),
{
    if keys.len() == 0 {
        None
    } else if h.dom().contains(keys[0]) {
        Some(h[keys[0]])
    } else {
        first_value(h, keys.drop_first())
    }
}

/// `prefix`, the value and `suffix` when there is a value; nothing otherwise.
pub open spec fn opt_line(v: Option<Seq<char>>, prefix: Seq<char>, suffix: Seq<char>) -> Seq<char> {
    match v {
        Some(x) => prefix + x + suffix,
        None => Seq::empty(),
    }
}

/// The text of an optional string.
pub open spec fn opt_view(o: Option<&String>) -> Option<Seq<char>> {
    match o {
        Some(s) => Some(s@),
        None => None,
    }
}

/// The value of the first of `k1`, `k2` that `h` holds.
pub(crate) fn first_of2<'a>(h: &'a HeaderMap, k1: &str, k2: &str) -> (r: Option<&'a String>)
    ensures
        opt_view(r) == first_value(h@, seq![k1@, k2@]),
{
    let r = match h.get(k1) {
        Some(v) => Some(v),
        None => h.get(k2),
    };
    proof {
        assert(seq![k1@, k2@].drop_first() =~= seq![k2@]);
        assert(seq![k2@].drop_first() =~= Seq::<Seq<char>>::empty());
        reveal_with_fuel(first_value, 3);
    }
    r
}

/// The value of the first of `k1`, `k2`, `k3` that `h` holds.
pub(crate) fn first_of3<'a>(h: &'a HeaderMap, k1: &str, k2: &str, k3: &str) -> (r: Option<&'a String>)
    ensures
        opt_view(r) == first_value(h@, seq![k1@, k2@, k3@]),
{
    let r = match h.get(k1) {
        Some(v) => Some(v),
        None => first_of2(h, k2, k3),
    };
    proof {
        assert(seq![k1@, k2@, k3@].drop_first() =~= seq![k2@, k3@]);
    }
    r
}

/// The value stored for `k`.
pub(crate) fn value_of_key<'a>(h: &'a HeaderMap, k: &str) -> (r: Option<&'a String>)
    ensures
        opt_view(r) == first_value(h@, seq![k@]),
{
    let r = h.get(k);
    proof {
        assert(seq![k@].drop_first() =~= Seq::<Seq<char>>::empty());
        reveal_with_fuel(first_value, 2);
    }
    r
}

/// Appends `prefix`, the value and `suffix` when there is a value.
pub(crate) fn append_line(out: &mut String, v: Option<&String>, prefix: &str, suffix: &str)
    ensures
        final(out)@ == old(out)@ + opt_line(opt_view(v), prefix@, suffix@),
{
    match v {
        Some(x) => {
            out.append(prefix);
            out.append(x.as_str());
            out.append(suffix);
        },
        None => {
            proof {
                assert(out@ + Seq::<char>::empty() =~= out@);
            }
        },
    }
}

/// The comma-separated decimal list of `s` (between the brackets of `{:?}`).
pub open spec fn list_body(s: Seq<usize>) -> Seq<char>
    decreases s.len(),
{
    if s.len() == 0 {
        Seq::empty()
    } else if s.len() == 1 {
        decimal(s[0] as nat)
    } else {
        list_body(s.drop_last()) + ", "@ + decimal(s.last() as nat)
    }
}

/// `s` in the `{:?}` form `[a, b, c]`.
pub open spec fn debug_list(s: Seq<usize>) -> Seq<char> {
    "["@ + list_body(s) + "]"@
}

/// Writes `dims` as `[a, b, c]`.
fn debug_list_string(dims: &Vec<usize>) -> (r: String)
    ensures
        r@ == debug_list(dims@),
{
    let mut body = String::new();
    let mut i: usize = 0;
    while i < dims.len()
        invariant
            i <= dims@.len(),
            body@ == list_body(dims@.take(i as int)),
        decreases dims@.len() - i,
    {
        let d = decimal_string(dims[i] as u64);
        proof {
            assert(dims@.take(i as int + 1).drop_last() =~= dims@.take(i as int));
        }
        if i > 0 {
            body.append(", ");
        } else {
            proof {
                assert(body@ =~= Seq::<char>::empty());
            }
        }
        body.append(d.as_str());
        proof {
            if i == 0 {
                assert(body@ =~= decimal(dims@[0] as nat));
            }
        }
        i = i + 1;
    }
    proof {
        assert(dims@.take(i as int) =~= dims@);
    }
    let mut r = String::from_str("[");
    r.append(body.as_str());
    r.append("]");
    r
}

/// The image lines of the summary.
pub open spec fn image_section(info: Option<ImageInfo>) -> Seq<char> {
    match info {
        None => Seq::empty(),
        Some(i) => "\nImage Information:\n"@ + "  Dimensions: "@ + decimal(i.width as nat) + " x "@
            + decimal(i.height as nat) + "\n"@ + "  Bit Depth: "@ + signed_decimal(i.bit_depth as int) + "\n"@
            + (if i.dimensions@.len() > 2 { "  Full Shape: "@ + debug_list(i.dimensions@) + "\n"@ } else { Seq::empty() }),
    }
}

/// The key-metadata lines of the summary, one per quantity the header holds.
pub open spec fn key_lines(h: Map<Seq<char>, Seq<char>>) -> Seq<char> {
    opt_line(first_value(h, seq!["DATE-OBS"@]), "  Date: "@, "\n"@)
    + opt_line(first_value(h, seq!["OBJECT"@, "OBJNAME"@, "TARGET"@]), "  Object: "@, "\n"@)
    + opt_line(first_value(h, seq!["EXPTIME"@, "EXPOSURE"@]), "  Exposure: "@, "s\n"@)
    + opt_line(first_value(h, seq!["FILTER"@, "FILTERNAME"@]), "  Filter: "@, "\n"@)
    + opt_line(first_value(h, seq!["TELESCOP"@]), "  Telescope: "@, "\n"@)
    + opt_line(first_value(h, seq!["INSTRUME"@]), "  Instrument: "@, "\n"@)
    + opt_line(first_value(h, seq!["HFR"@, "STARHFR"@, "MEANHFR"@]), "  HFR: "@, "\n"@)
    + opt_line(first_value(h, seq!["STARS"@, "STARCOUNT"@, "NSTARS"@]), "  Stars: "@, "\n"@)
    + opt_line(first_value(h, seq!["STARSFWHM"@, "FWHM"@, "MEANFWHM"@]), "  FWHM: "@, "\n"@)
    + opt_line(first_value(h, seq!["MEDIAN"@, "MEDIANPX"@]), "  Median: "@, "\n"@)
    + opt_line(first_value(h, seq!["MEAN"@, "MEANPX"@]), "  Mean: "@, "\n"@)
    + opt_line(first_value(h, seq!["STDEV"@, "STDDEV"@]), "  StdDev: "@, "\n"@)
    + opt_line(first_value(h, seq!["GAIN"@]), "  Gain: "@, "\n"@)
    + opt_line(first_value(h, seq!["CCD-TEMP"@]), "  CCD Temp: "@, "°C\n"@)
    + (match first_value(h, seq!["XBINNING"@]) {
        Some(b) => "  Binning: "@ + b + "x"@ + b + "\n"@,
        None => Seq::empty(),
    })
    + (match (first_value(h, seq!["OBJCTRA"@, "RA"@]), first_value(h, seq!["OBJCTDEC"@, "DEC"@])) {
        (Some(ra), Some(dec)) => "  RA/Dec: "@ + ra + " / "@ + dec + "\n"@,
        _ => Seq::empty(),
    })
}

/// Writes the key-metadata lines.
fn key_lines_string(h: &HeaderMap) -> (r: String)
    ensures
        r@ == key_lines(h@),
{
    let mut out = String::new();
    append_line(&mut out, value_of_key(h, "DATE-OBS"), "  Date: ", "\n");
    proof {
        assert(out@ =~= opt_line(first_value(h@, seq!["DATE-OBS"@]), "  Date: "@, "\n"@));
    }
    append_line(&mut out, first_of3(h, "OBJECT", "OBJNAME", "TARGET"), "  Object: ", "\n");
    append_line(&mut out, first_of2(h, "EXPTIME", "EXPOSURE"), "  Exposure: ", "s\n");
    append_line(&mut out, first_of2(h, "FILTER", "FILTERNAME"), "  Filter: ", "\n");
    append_line(&mut out, value_of_key(h, "TELESCOP"), "  Telescope: ", "\n");
    append_line(&mut out, value_of_key(h, "INSTRUME"), "  Instrument: ", "\n");
    append_line(&mut out, first_of3(h, "HFR", "STARHFR", "MEANHFR"), "  HFR: ", "\n");
    append_line(&mut out, first_of3(h, "STARS", "STARCOUNT", "NSTARS"), "  Stars: ", "\n");
    append_line(&mut out, first_of3(h, "STARSFWHM", "FWHM", "MEANFWHM"), "  FWHM: ", "\n");
    append_line(&mut out, first_of2(h, "MEDIAN", "MEDIANPX"), "  Median: ", "\n");
    append_line(&mut out, first_of2(h, "MEAN", "MEANPX"), "  Mean: ", "\n");
    append_line(&mut out, first_of2(h, "STDEV", "STDDEV"), "  StdDev: ", "\n");
    append_line(&mut out, value_of_key(h, "GAIN"), "  Gain: ", "\n");
    append_line(&mut out, value_of_key(h, "CCD-TEMP"), "  CCD Temp: ", "°C\n");
    let ghost before_binning = out@;
    match value_of_key(h, "XBINNING") {
        Some(b) => {
            out.append("  Binning: ");
            out.append(b.as_str());
            out.append("x");
            out.append(b.as_str());
            out.append("\n");
            proof {
                assert(out@ =~= before_binning + ("  Binning: "@ + b@ + "x"@ + b@ + "\n"@));
            }
        },
        None => {
            proof {
                assert(out@ =~= before_binning + Seq::<char>::empty());
            }
        },
    }
    let ghost before_position = out@;
    let ra = first_of2(h, "OBJCTRA", "RA");
    let dec = first_of2(h, "OBJCTDEC", "DEC");
    match (ra, dec) {
        (Some(r), Some(d)) => {
            out.append("  RA/Dec: ");
            out.append(r.as_str());
            out.append(" / ");
            out.append(d.as_str());
            out.append("\n");
            proof {
                assert(out@ =~= before_position + ("  RA/Dec: "@ + r@ + " / "@ + d@ + "\n"@));
            }
        },
        _ => {
            proof {
                assert(out@ =~= before_position + Seq::<char>::empty());
            }
        },
    }
    out
}

/// Writes the image lines.
fn image_section_string(info: &Option<ImageInfo>) -> (r: String)
    ensures
        r@ == image_section(*info),
{
    match info {
        None => String::new(),
        Some(i) => {
            let mut out = String::from_str("\nImage Information:\n");
            out.append("  Dimensions: ");
            let w = decimal_string(i.width as u64);
            out.append(w.as_str());
            out.append(" x ");
            let h = decimal_string(i.height as u64);
            out.append(h.as_str());
            out.append("\n");
            out.append("  Bit Depth: ");
            let b = signed_decimal_string(i.bit_depth as i64);
            out.append(b.as_str());
            out.append("\n");
            let ghost before = out@;
            if i.dimensions.len() > 2 {
                out.append("  Full Shape: ");
                let d = debug_list_string(&i.dimensions);
                out.append(d.as_str());
                out.append("\n");
                proof {
                    assert(out@ =~= before + ("  Full Shape: "@ + debug_list(i.dimensions@) + "\n"@));
                }
            } else {
                proof {
                    assert(out@ =~= before + Seq::<char>::empty());
                }
            }
            out
        },
    }
}

/// `k` padded with spaces to 16 characters (`{:<16}`).
pub open spec fn pad16(k: Seq<char>) -> Seq<char> {
    if k.len() >= 16 {
        k
    } else {
        k + Seq::new((16 - k.len()) as nat, |i: int| ' ')
    }
}

/// One `  KEY              = value` line per entry.
pub open spec fn keyword_lines(es: Seq<(Seq<char>, Seq<char>)>) -> Seq<char>
    decreases es.len(),
{
    if es.len() == 0 {
        Seq::empty()
    } else {
        keyword_lines(es.drop_last()) + "  "@ + pad16(es.last().0) + " = "@ + es.last().1 + "\n"@
    }
}

/// The listing of one header unit: its index, its name if it has one, and
/// every keyword in ascending order.
pub open spec fn hdu_section(hdr: HeaderInfo) -> Seq<char> {
    "\nHDU "@ + decimal(hdr.hdu_index as nat) + " "@ + (match hdr.hdu_name {
        Some(n) => "("@ + n@ + ")"@,
        None => Seq::empty(),
    }) + " - All Keywords:\n"@ + keyword_lines(hdr.keywords.spec_entries())
}

/// The listings of the header units, in order.
pub open spec fn hdu_sections(hs: Seq<HeaderInfo>) -> Seq<char>
    decreases hs.len(),
{
    if hs.len() == 0 {
        Seq::empty()
    } else {
        hdu_sections(hs.drop_last()) + hdu_section(hs.last())
    }
}

/// Appends `k` padded with spaces to 16 characters.
fn append_padded(out: &mut String, k: &String)
    ensures
        final(out)@ == old(out)@ + pad16(k@),
{
    out.append(k.as_str());
    let n = chars_of(k.as_str()).len();
    let ghost start = old(out)@ + k@;
    let mut i = n;
    while i < 16
        invariant
            n == k@.len(),
            n <= i <= 16 || (n > 16 && i == n),
            out@ == start + Seq::new((i - n) as nat, |j: int| ' '),
        decreases 16 - i,
    {
        crate::text::push_char(out, ' ');
        proof {
            assert(out@ =~= start + Seq::new((i + 1 - n) as nat, |j: int| ' '));
        }
        i = i + 1;
    }
    proof {
        if n >= 16 {
            assert(out@ =~= old(out)@ + k@);
        } else {
            assert(out@ =~= old(out)@ + (k@ + Seq::new((16 - n) as nat, |j: int| ' ')));
        }
    }
}

/// Writes the listing of one header unit.
fn hdu_section_string(hdr: &HeaderInfo) -> (r: String)
    ensures
        r@ == hdu_section(*hdr),
{
    let mut out = String::from_str("\nHDU ");
    let idx = decimal_string(hdr.hdu_index as u64);
    out.append(idx.as_str());
    out.append(" ");
    let ghost before_name = out@;
    match &hdr.hdu_name {
        Some(n) => {
            out.append("(");
            out.append(n.as_str());
            out.append(")");
            proof {
                assert(out@ =~= before_name + ("("@ + n@ + ")"@));
            }
        },
        None => {
            proof {
                assert(out@ =~= before_name + Seq::<char>::empty());
            }
        },
    }
    out.append(" - All Keywords:\n");
    let ghost head = out@;
    let n = hdr.keywords.len();
    let ghost es = hdr.keywords.spec_entries();
    let mut i: usize = 0;
    while i < n
        invariant
            n == es.len(),
            es == hdr.keywords.spec_entries(),
            i <= n,
            out@ == head + keyword_lines(es.take(i as int)),
        decreases n - i,
    {
        let (k, v) = hdr.keywords.entry(i);
        let ghost before = out@;
        out.append("  ");
        append_padded(&mut out, k);
        out.append(" = ");
        out.append(v.as_str());
        out.append("\n");
        proof {
            assert(es.take(i as int + 1).drop_last() =~= es.take(i as int));
            assert(out@ =~= head + (keyword_lines(es.take(i as int)) + "  "@ + pad16(k@) + " = "@ + v@ + "\n"@));
        }
        i = i + 1;
    }
    proof {
        assert(es.take(n as int) =~= es);
    }
    out
}

/// The summary of a FITS file's metadata shown by the command-line tools:
/// file name, number of header units, image geometry, the key quantities the
/// header records, and with `verbose` every keyword of every header unit.
pub open spec fn fits_summary(md: FitsMetadata, verbose: bool) -> Seq<char> {
    "FITS File: "@ + md.filename@ + "\n"@ + "HDUs: "@ + decimal(md.headers@.len()) + "\n"@
        + image_section(md.image_info) + "\nKey Metadata:\n"@ + key_lines(md.primary_header@)
        + (if verbose { hdu_sections(md.headers@) } else { Seq::empty() })
}

/// Formats the metadata of a FITS file for display.
pub fn format_fits_metadata(metadata: &FitsMetadata, verbose: bool) -> (r: String)
    ensures
        r@ == fits_summary(*metadata, verbose),
{
    let mut output = String::from_str("FITS File: ");
    output.append(metadata.filename.as_str());
    output.append("\n");
    output.append("HDUs: ");
    let count = decimal_string(metadata.headers.len() as u64);
    output.append(count.as_str());
    output.append("\n");
    let image = image_section_string(&metadata.image_info);
    output.append(image.as_str());
    output.append("\nKey Metadata:\n");
    let keys = key_lines_string(&metadata.primary_header);
    output.append(keys.as_str());
    let ghost before = output@;
    if verbose {
        let mut i: usize = 0;
        let ghost hs = metadata.headers@;
        proof {
            assert(hs.take(0) =~= Seq::<HeaderInfo>::empty());
            assert(output@ =~= before + hdu_sections(hs.take(0)));
        }
        while i < metadata.headers.len()
            invariant
                hs == metadata.headers@,
                i <= hs.len(),
                output@ == before + hdu_sections(hs.take(i as int)),
            decreases hs.len() - i,
        {
            let section = hdu_section_string(&metadata.headers[i]);
            output.append(section.as_str());
            proof {
                assert(hs.take(i as int + 1).drop_last() =~= hs.take(i as int));
                assert(output@ =~= before + (hdu_sections(hs.take(i as int)) + hdu_section(hs[i as int])));
            }
            i = i + 1;
        }
        proof {
            assert(hs.take(i as int) =~= hs);
        }
    } else {
        proof {
            assert(output@ =~= before + Seq::<char>::empty());
        }
    }
    output
}

/// The verbose summary is the plain summary followed by the keyword listing
/// of every header unit.
pub proof fn law_verbose_summary_extends(md: FitsMetadata)
    ensures
        fits_summary(md, true) == fits_summary(md, false) + hdu_sections(md.headers@),
{
    assert(fits_summary(md, false) =~= fits_summary(md, false) + Seq::<char>::empty());
}

proof fn lemma_contains_in_sum(a: Seq<char>, b: Seq<char>, x: Seq<char>)
    ensures
        contains_seq(a, x) || contains_seq(b, x) ==> contains_seq(a + b, x),
{
    if contains_seq(a, x) {
        let i = choose|i: int| 0 <= i && i + x.len() <= a.len() && #[trigger] a.subrange(i, i + x.len()) == x;
        assert((a + b).subrange(i, i + x.len()) =~= a.subrange(i, i + x.len()));
    } else if contains_seq(b, x) {
        let j = choose|j: int| 0 <= j && j + x.len() <= b.len() && #[trigger] b.subrange(j, j + x.len()) == x;
        assert((a + b).subrange(a.len() + j, a.len() + j + x.len()) =~= b.subrange(j, j + x.len()));
    }
}

/// Whether the summary shows the line `prefix`, `v`, `suffix`.
pub open spec fn shows_line(md: FitsMetadata, verbose: bool, prefix: Seq<char>, v: Seq<char>, suffix: Seq<char>) -> bool {
    contains_seq(fits_summary(md, verbose), prefix + v + suffix)
}

/// Every quantity that the primary header records under its first-choice
/// keyword appears in the summary as its own line: the label, the header's
/// value, and the line's ending (`s` after an exposure, `°C` after a
/// temperature).
pub proof fn law_summary_shows_header_values(md: FitsMetadata, verbose: bool)
    ensures
        ({
            let h = md.primary_header@;
            &&& h.dom().contains("DATE-OBS"@) ==> shows_line(md, verbose, "  Date: "@, h["DATE-OBS"@], "\n"@)
            &&& h.dom().contains("OBJECT"@) ==> shows_line(md, verbose, "  Object: "@, h["OBJECT"@], "\n"@)
            &&& h.dom().contains("EXPTIME"@) ==> shows_line(md, verbose, "  Exposure: "@, h["EXPTIME"@], "s\n"@)
            &&& h.dom().contains("FILTER"@) ==> shows_line(md, verbose, "  Filter: "@, h["FILTER"@], "\n"@)
            &&& h.dom().contains("TELESCOP"@) ==> shows_line(md, verbose, "  Telescope: "@, h["TELESCOP"@], "\n"@)
            &&& h.dom().contains("INSTRUME"@) ==> shows_line(md, verbose, "  Instrument: "@, h["INSTRUME"@], "\n"@)
            &&& h.dom().contains("GAIN"@) ==> shows_line(md, verbose, "  Gain: "@, h["GAIN"@], "\n"@)
            &&& h.dom().contains("CCD-TEMP"@) ==> shows_line(md, verbose, "  CCD Temp: "@, h["CCD-TEMP"@], "°C\n"@)
            &&& h.dom().contains("HFR"@) ==> shows_line(md, verbose, "  HFR: "@, h["HFR"@], "\n"@)
            &&& h.dom().contains("STARS"@) ==> shows_line(md, verbose, "  Stars: "@, h["STARS"@], "\n"@)
            &&& h.dom().contains("STARSFWHM"@) ==> shows_line(md, verbose, "  FWHM: "@, h["STARSFWHM"@], "\n"@)
            &&& h.dom().contains("MEDIAN"@) ==> shows_line(md, verbose, "  Median: "@, h["MEDIAN"@], "\n"@)
            &&& h.dom().contains("MEAN"@) ==> shows_line(md, verbose, "  Mean: "@, h["MEAN"@], "\n"@)
            &&& h.dom().contains("STDEV"@) ==> shows_line(md, verbose, "  StdDev: "@, h["STDEV"@], "\n"@)
            &&& h.dom().contains("XBINNING"@) ==> shows_line(md, verbose, "  Binning: "@, h["XBINNING"@] + "x"@ + h["XBINNING"@], "\n"@)
            &&& h.dom().contains("OBJCTRA"@) && h.dom().contains("OBJCTDEC"@)
                ==> shows_line(md, verbose, "  RA/Dec: "@, h["OBJCTRA"@] + " / "@ + h["OBJCTDEC"@], "\n"@)
        }),
{
    assert forall|a: Seq<char>, b: Seq<char>, x: Seq<char>| contains_seq(a, x) || contains_seq(b, x)
        implies #[trigger] contains_seq(a + b, x) by {
        lemma_contains_in_sum(a, b, x);
    }
    assert forall|x: Seq<char>| #[trigger] contains_seq(x, x) by {
        assert(x.subrange(0, 0 + x.len() as int) =~= x);
    }
    let h = md.primary_header@;
    let b = h["XBINNING"@];
    assert("  Binning: "@ + b + "x"@ + b + "\n"@ =~= "  Binning: "@ + (b + "x"@ + b) + "\n"@);
    let ra = h["OBJCTRA"@];
    let dec = h["OBJCTDEC"@];
    assert("  RA/Dec: "@ + ra + " / "@ + dec + "\n"@ =~= "  RA/Dec: "@ + (ra + " / "@ + dec) + "\n"@);
}

proof fn lemma_first_of_two(h: Map<Seq<char>, Seq<char>>, a: Seq<char>, b: Seq<char>)
    ensures
        !h.dom().contains(a) && h.dom().contains(b) ==> first_value(h, seq![a, b]) == Some(h[b]),
{
    reveal_with_fuel(first_value, 3);
    assert(seq![a, b][0] == a);
    assert(seq![a, b].drop_first() =~= seq![b]);
    assert(seq![b][0] == b);
}

proof fn lemma_first_of_three(h: Map<Seq<char>, Seq<char>>, a: Seq<char>, b: Seq<char>, c: Seq<char>)
    ensures
        !h.dom().contains(a) && h.dom().contains(b) ==> first_value(h, seq![a, b, c]) == Some(h[b]),
        !h.dom().contains(a) && !h.dom().contains(b) && h.dom().contains(c) ==> first_value(h, seq![a, b, c]) == Some(h[c]),
{
    reveal_with_fuel(first_value, 4);
    assert(seq![a, b, c][0] == a);
    assert(seq![a, b, c].drop_first() =~= seq![b, c]);
    assert(seq![b, c][0] == b);
    assert(seq![b, c].drop_first() =~= seq![c]);
    assert(seq![c][0] == c);
}

/// Where the first-choice keyword of a summary line is missing, the line
/// shows the value of the next keyword the header holds: `OBJNAME` then
/// `TARGET` for the object, `EXPOSURE` for the exposure, `FILTERNAME` for the
/// filter, `STARHFR` then `MEANHFR`, `STARCOUNT` then `NSTARS`, `FWHM` then
/// `MEANFWHM`, `MEDIANPX`, `MEANPX`, `STDDEV`, and `RA` / `DEC` for the
/// coordinates.
pub proof fn law_summary_falls_back_on_alternate_keys(md: FitsMetadata, verbose: bool)
    ensures
        ({
            let h = md.primary_header@;
            &&& !h.dom().contains("OBJECT"@) && h.dom().contains("OBJNAME"@)
                ==> shows_line(md, verbose, "  Object: "@, h["OBJNAME"@], "\n"@)
            &&& !h.dom().contains("OBJECT"@) && !h.dom().contains("OBJNAME"@) && h.dom().contains("TARGET"@)
                ==> shows_line(md, verbose, "  Object: "@, h["TARGET"@], "\n"@)
            &&& !h.dom().contains("EXPTIME"@) && h.dom().contains("EXPOSURE"@)
                ==> shows_line(md, verbose, "  Exposure: "@, h["EXPOSURE"@], "s\n"@)
            &&& !h.dom().contains("FILTER"@) && h.dom().contains("FILTERNAME"@)
                ==> shows_line(md, verbose, "  Filter: "@, h["FILTERNAME"@], "\n"@)
            &&& !h.dom().contains("HFR"@) && h.dom().contains("STARHFR"@)
                ==> shows_line(md, verbose, "  HFR: "@, h["STARHFR"@], "\n"@)
            &&& !h.dom().contains("HFR"@) && !h.dom().contains("STARHFR"@) && h.dom().contains("MEANHFR"@)
                ==> shows_line(md, verbose, "  HFR: "@, h["MEANHFR"@], "\n"@)
            &&& !h.dom().contains("STARS"@) && h.dom().contains("STARCOUNT"@)
                ==> shows_line(md, verbose, "  Stars: "@, h["STARCOUNT"@], "\n"@)
            &&& !h.dom().contains("STARS"@) && !h.dom().contains("STARCOUNT"@) && h.dom().contains("NSTARS"@)
                ==> shows_line(md, verbose, "  Stars: "@, h["NSTARS"@], "\n"@)
            &&& !h.dom().contains("STARSFWHM"@) && h.dom().contains("FWHM"@)
                ==> shows_line(md, verbose, "  FWHM: "@, h["FWHM"@], "\n"@)
            &&& !h.dom().contains("STARSFWHM"@) && !h.dom().contains("FWHM"@) && h.dom().contains("MEANFWHM"@)
                ==> shows_line(md, verbose, "  FWHM: "@, h["MEANFWHM"@], "\n"@)
            &&& !h.dom().contains("MEDIAN"@) && h.dom().contains("MEDIANPX"@)
                ==> shows_line(md, verbose, "  Median: "@, h["MEDIANPX"@], "\n"@)
            &&& !h.dom().contains("MEAN"@) && h.dom().contains("MEANPX"@)
                ==> shows_line(md, verbose, "  Mean: "@, h["MEANPX"@], "\n"@)
            &&& !h.dom().contains("STDEV"@) && h.dom().contains("STDDEV"@)
                ==> shows_line(md, verbose, "  StdDev: "@, h["STDDEV"@], "\n"@)
            &&& !h.dom().contains("OBJCTRA"@) && h.dom().contains("RA"@) && !h.dom().contains("OBJCTDEC"@) && h.dom().contains("DEC"@)
                ==> shows_line(md, verbose, "  RA/Dec: "@, h["RA"@] + " / "@ + h["DEC"@], "\n"@)
        }),
{
    assert forall|a: Seq<char>, b: Seq<char>, x: Seq<char>| contains_seq(a, x) || contains_seq(b, x)
        implies #[trigger] contains_seq(a + b, x) by {
        lemma_contains_in_sum(a, b, x);
    }
    assert forall|x: Seq<char>| #[trigger] contains_seq(x, x) by {
        assert(x.subrange(0, 0 + x.len() as int) =~= x);
    }
    let h = md.primary_header@;
    lemma_first_of_three(h, "OBJECT"@, "OBJNAME"@, "TARGET"@);
    lemma_first_of_two(h, "EXPTIME"@, "EXPOSURE"@);
    lemma_first_of_two(h, "FILTER"@, "FILTERNAME"@);
    lemma_first_of_three(h, "HFR"@, "STARHFR"@, "MEANHFR"@);
    lemma_first_of_three(h, "STARS"@, "STARCOUNT"@, "NSTARS"@);
    lemma_first_of_three(h, "STARSFWHM"@, "FWHM"@, "MEANFWHM"@);
    lemma_first_of_two(h, "MEDIAN"@, "MEDIANPX"@);
    lemma_first_of_two(h, "MEAN"@, "MEANPX"@);
    lemma_first_of_two(h, "STDEV"@, "STDDEV"@);
    lemma_first_of_two(h, "OBJCTRA"@, "RA"@);
    lemma_first_of_two(h, "OBJCTDEC"@, "DEC"@);
    let ra = h["RA"@];
    let dec = h["DEC"@];
    assert("  RA/Dec: "@ + ra + " / "@ + dec + "\n"@ =~= "  RA/Dec: "@ + (ra + " / "@ + dec) + "\n"@);
}

} // verus!
