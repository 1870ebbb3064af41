//! The `read-fits` subcommand's logic: the keyword summary, the simplified
//! per-file record, CSV fields and the FITS file-extension test.

use vstd::prelude::*;
use vstd::string::StringExecFns;
pub use crate::fits::{FitsMetadata, HeaderInfo, ImageInfo};
use crate::fits::{first_value, opt_line, opt_view, first_of2, first_of3, value_of_key, append_line};
use crate::header_map::HeaderMap;
use crate::utils::{extension_of, path_extension, path_file_name};
use crate::text::{is_digit, parse_i32_spec, parse_i32_range, chars_of, push_char, decimal, decimal_string, signed_decimal, signed_decimal_string, lowercase, to_lowercase};

verus! {

broadcast use vstd::string::group_string_axioms;

/// The key-header lines of the summary, one per header the file holds.
pub open spec fn key_header_lines(h: Map<Seq<char>, Seq<char>>) -> Seq<char> {
    opt_line(first_value(h, seq!["OBJECT"@]), "  Object: "@, "\n"@)
    + opt_line(first_value(h, seq!["DATE-OBS"@]), "  Observation Date: "@, "\n"@)
    + opt_line(first_value(h, seq!["EXPTIME"@]), "  Exposure: "@, "\n"@)
    + opt_line(first_value(h, seq!["FILTER"@]), "  Filter: "@, "\n"@)
    + opt_line(first_value(h, seq!["TELESCOP"@]), "  Telescope: "@, "\n"@)
    + opt_line(first_value(h, seq!["INSTRUME"@]), "  Instrument: "@, "\n"@)
    + opt_line(first_value(h, seq!["OBSERVER"@]), "  Observer: "@, "\n"@)
    + opt_line(first_value(h, seq!["GAIN"@]), "  Gain: "@, "\n"@)
    + opt_line(first_value(h, seq!["CCD-TEMP"@]), "  CCD Temperature: "@, "\n"@)
    + opt_line(first_value(h, seq!["XBINNING"@]), "  Binning: "@, "\n"@)
    + opt_line(first_value(h, seq!["FOCALLEN"@]), "  Focal Length: "@, "\n"@)
    + opt_line(first_value(h, seq!["FOCUSPOS"@]), "  Focus Position: "@, "\n"@)
    + opt_line(first_value(h, seq!["OBJCTRA"@]), "  RA: "@, "\n"@)
    + opt_line(first_value(h, seq!["OBJCTDEC"@]), "  DEC: "@, "\n"@)
    + opt_line(first_value(h, seq!["AIRMASS"@]), "  Airmass: "@, "\n"@)
}

/// The N.I.N.A. lines of the summary, present when `SWCREATE` is.
pub open spec fn nina_lines(h: Map<Seq<char>, Seq<char>>) -> Seq<char> {
    if h.dom().contains("SWCREATE"@) {
        "\nN.I.N.A. Headers:\n"@
        + opt_line(first_value(h, seq!["SWCREATE"@]), "  Software: "@, "\n"@)
        + opt_line(first_value(h, seq!["HFR"@]), "  HFR: "@, "\n"@)
        + opt_line(first_value(h, seq!["STARS"@]), "  Stars: "@, "\n"@)
        + opt_line(first_value(h, seq!["STARSFWHM"@]), "  FWHM: "@, "\n"@)
    } else {
        Seq::empty()
    }
}

/// One `  KEY: value` line per entry.
pub open spec fn header_lines(es: Seq<(Seq<char>, Seq<char>)>) -> Seq<char>
    decreases es.len(),
{
    if es.len() == 0 {
        Seq::empty()
    } else {
        header_lines(es.drop_last()) + "  "@ + es.last().0 + ": "@ + es.last().1 + "\n"@
    }
}

/// The summary printed for a file: its name, its image size and depth, the
/// key headers, the N.I.N.A. headers, and with `verbose` every header in
/// ascending order of keyword.
pub open spec fn read_fits_summary(md: FitsMetadata, verbose: bool) -> Seq<char> {
    "Filename: "@ + md.filename@ + "\n"@
        + (match md.image_info {
            Some(i) => "Image: "@ + decimal(i.width as nat) + "x"@ + decimal(i.height as nat) + " ("@
                + signed_decimal(i.bit_depth as int) + "-bit)\n"@,
            None => Seq::empty(),
        })
        + "\nKey Headers:\n"@ + key_header_lines(md.primary_header@) + nina_lines(md.primary_header@)
        + (if verbose { "\nAll Headers:\n"@ + header_lines(md.primary_header.spec_entries()) } else { Seq::empty() })
}

/// Writes the key-header lines.
fn key_header_string(h: &HeaderMap) -> (r: String)
    ensures
        r@ == key_header_lines(h@),
{
    let mut out = String::new();
    append_line(&mut out, value_of_key(h, "OBJECT"), "  Object: ", "\n");
    proof {
        assert(out@ =~= opt_line(first_value(h@, seq!["OBJECT"@]), "  Object: "@, "\n"@));
    }
    append_line(&mut out, value_of_key(h, "DATE-OBS"), "  Observation Date: ", "\n");
    append_line(&mut out, value_of_key(h, "EXPTIME"), "  Exposure: ", "\n");
    append_line(&mut out, value_of_key(h, "FILTER"), "  Filter: ", "\n");
    append_line(&mut out, value_of_key(h, "TELESCOP"), "  Telescope: ", "\n");
    append_line(&mut out, value_of_key(h, "INSTRUME"), "  Instrument: ", "\n");
    append_line(&mut out, value_of_key(h, "OBSERVER"), "  Observer: ", "\n");
    append_line(&mut out, value_of_key(h, "GAIN"), "  Gain: ", "\n");
    append_line(&mut out, value_of_key(h, "CCD-TEMP"), "  CCD Temperature: ", "\n");
    append_line(&mut out, value_of_key(h, "XBINNING"), "  Binning: ", "\n");
    append_line(&mut out, value_of_key(h, "FOCALLEN"), "  Focal Length: ", "\n");
    append_line(&mut out, value_of_key(h, "FOCUSPOS"), "  Focus Position: ", "\n");
    append_line(&mut out, value_of_key(h, "OBJCTRA"), "  RA: ", "\n");
    append_line(&mut out, value_of_key(h, "OBJCTDEC"), "  DEC: ", "\n");
    append_line(&mut out, value_of_key(h, "AIRMASS"), "  Airmass: ", "\n");
    out
}

/// Writes the N.I.N.A. lines.
fn nina_string(h: &HeaderMap) -> (r: String)
    ensures
        r@ == nina_lines(h@),
{
    if h.contains_key("SWCREATE") {
        let mut out = String::from_str("\nN.I.N.A. Headers:\n");
        append_line(&mut out, value_of_key(h, "SWCREATE"), "  Software: ", "\n");
        append_line(&mut out, value_of_key(h, "HFR"), "  HFR: ", "\n");
        append_line(&mut out, value_of_key(h, "STARS"), "  Stars: ", "\n");
        append_line(&mut out, value_of_key(h, "STARSFWHM"), "  FWHM: ", "\n");
        out
    } else {
        String::new()
    }
}

/// Formats the metadata of a FITS file for the `read-fits` listing.
pub fn format_fits_metadata(metadata: &FitsMetadata, verbose: bool) -> (r: String)
    ensures
        r@ == read_fits_summary(*metadata, verbose),
{
    let mut output = String::from_str("Filename: ");
    output.append(metadata.filename.as_str());
    output.append("\n");
    let ghost before_image = output@;
    match &metadata.image_info {
        Some(i) => {
            output.append("Image: ");
            let w = decimal_string(i.width as u64);
            output.append(w.as_str());
            output.append("x");
            let h = decimal_string(i.height as u64);
            output.append(h.as_str());
            output.append(" (");
            let b = signed_decimal_string(i.bit_depth as i64);
            output.append(b.as_str());
            output.append("-bit)\n");
            proof {
                assert(output@ =~= before_image + ("Image: "@ + decimal(i.width as nat) + "x"@ + decimal(i.height as nat) + " ("@
                    + signed_decimal(i.bit_depth as int) + "-bit)\n"@));
            }
        },
        None => {
            proof {
                assert(output@ =~= before_image + Seq::<char>::empty());
            }
        },
    }
    output.append("\nKey Headers:\n");
    let keys = key_header_string(&metadata.primary_header);
    output.append(keys.as_str());
    let nina = nina_string(&metadata.primary_header);
    output.append(nina.as_str());
    let ghost before = output@;
    if verbose {
        output.append("\nAll Headers:\n");
        let ghost head = output@;
        let h = &metadata.primary_header;
        let n = h.len();
        let ghost es = h.spec_entries();
        let mut i: usize = 0;
        proof {
            assert(es.take(0) =~= Seq::<(Seq<char>, Seq<char>)>::empty());
            assert(output@ =~= head + header_lines(es.take(0)));
        }
        while i < n
            invariant
                n == es.len(),
                es == h.spec_entries(),
                i <= n,
                output@ == head + header_lines(es.take(i as int)),
            decreases n - i,
        {
            let (k, v) = h.entry(i);
            output.append("  ");
            output.append(k.as_str());
            output.append(": ");
            output.append(v.as_str());
            output.append("\n");
            proof {
                assert(es.take(i as int + 1).drop_last() =~= es.take(i as int));
                assert(output@ =~= head + (header_lines(es.take(i as int)) + "  "@ + k@ + ": "@ + v@ + "\n"@));
            }
            i = i + 1;
        }
        proof {
            assert(es.take(i as int) =~= es);
            assert(output@ =~= before + ("\nAll Headers:\n"@ + header_lines(es)));
        }
    } else {
        proof {
            assert(output@ =~= before + Seq::<char>::empty());
        }
    }
    output
}

/// `v` contains `c`.
pub open spec fn has_char(v: Seq<char>, c: char) -> bool {
    exists|i: int| 0 <= i < v.len() && v[i] == c
}

/// `v` with every `"` doubled.
pub open spec fn double_quotes(v: Seq<char>) -> Seq<char>
    decreases v.len(),
{
    if v.len() == 0 {
        Seq::empty()
    } else {
        double_quotes(v.drop_last()) + if v.last() == '"' { seq!['"', '"'] } else { seq![v.last()] }
    }
}

/// A CSV field holding `v`: quoted, with inner quotes doubled, when `v` holds a
/// comma, a quote or a line feed; `v` itself otherwise.
pub open spec fn csv_field(v: Seq<char>) -> Seq<char> {
    if has_char(v, ',') || has_char(v, '"') || has_char(v, '\n') {
        seq!['"'] + double_quotes(v) + seq!['"']
    } else {
        v
    }
}

/// Escapes a value for a CSV field.
pub fn escape_csv(value: &str) -> (r: String)
    ensures
        r@ == csv_field(value@),
{
    let cs = chars_of(value);
    let mut special = false;
    let mut i: usize = 0;
    while i < cs.len()
        invariant
            i <= cs@.len(),
            special == exists|j: int| 0 <= j < i && (cs@[j] == ',' || cs@[j] == '"' || cs@[j] == '\n'),
        decreases cs@.len() - i,
    {
        let c = cs[i];
        if c == ',' || c == '"' || c == '\n' {
            special = true;
        }
        i = i + 1;
    }
    proof {
        if special {
            let j = choose|j: int| 0 <= j < i && (cs@[j] == ',' || cs@[j] == '"' || cs@[j] == '\n');
            assert(has_char(value@, cs@[j]));
        } else {
            assert(!has_char(value@, ','));
            assert(!has_char(value@, '"'));
            assert(!has_char(value@, '\n'));
        }
    }
    if !special {
        return String::from_str(value);
    }
    let mut out = String::new();
    push_char(&mut out, '"');
    let ghost head = out@;
    let mut i: usize = 0;
    while i < cs.len()
        invariant
            i <= cs@.len(),
            head == seq!['"'],
            out@ == head + double_quotes(cs@.take(i as int)),
        decreases cs@.len() - i,
    {
        let c = cs[i];
        push_char(&mut out, c);
        if c == '"' {
            push_char(&mut out, '"');
        }
        proof {
            assert(cs@.take(i as int + 1).drop_last() =~= cs@.take(i as int));
            if c == '"' {
                assert(out@ =~= head + (double_quotes(cs@.take(i as int)) + seq!['"', '"']));
            } else {
                assert(out@ =~= head + (double_quotes(cs@.take(i as int)) + seq![c]));
            }
        }
        i = i + 1;
    }
    proof {
        assert(cs@.take(i as int) =~= cs@);
    }
    push_char(&mut out, '"');
    out
}

/// A lowercase file extension names a FITS file: `fits`, `fit` or `fts`.
pub fn is_fits_extension_lower(lower: &str) -> (r: bool)
    ensures
        r == (lower@ == "fits"@ || lower@ == "fit"@ || lower@ == "fts"@),
{
    let l = String::from_str(lower);
    let fits = String::from_str("fits");
    let fit = String::from_str("fit");
    let fts = String::from_str("fts");
    l == fits || l == fit || l == fts
}

/// A file with extension `extension` is a FITS file: the extension, in lower
/// case, is `fits`, `fit` or `fts`; a file without one is not.
pub fn is_fits_extension(extension: Option<&str>) -> (r: bool)
    ensures
        r == (match extension {
            Some(e) => lowercase(e@) == "fits"@ || lowercase(e@) == "fit"@ || lowercase(e@) == "fts"@,
            None => false,
        }),
{
    match extension {
        Some(e) => {
            let lower = to_lowercase(e);
            is_fits_extension_lower(lower.as_str())
        },
        None => false,
    }
}

/// The file at `path` is a FITS file: the extension of its file name, in
/// lower case, is `fits`, `fit` or `fts`.
pub fn is_fits_file(path: &str) -> (r: bool)
    ensures
        r == (match extension_of(path_file_name(path@)) {
            Some(e) => lowercase(e) == "fits"@ || lowercase(e) == "fit"@ || lowercase(e) == "fts"@,
            None => false,
        }),
{
    match path_extension(path) {
        Some(e) => is_fits_extension(Some(e.as_str())),
        None => false,
    }
}

/// The per-file record of the non-verbose JSON and CSV listings.
#[derive(Debug)]
pub struct SimplifiedFitsMetadata {
    pub filename: String,
    pub width: Option<usize>,
    pub height: Option<usize>,
    pub bit_depth: Option<i32>,
    pub date_obs: Option<String>,
    pub object: Option<String>,
    pub exposure: Option<String>,
    pub filter: Option<String>,
    pub telescope: Option<String>,
    pub instrument: Option<String>,
    pub gain: Option<String>,
    pub ccd_temp: Option<String>,
    pub binning: Option<String>,
    pub ra: Option<String>,
    pub dec: Option<String>,
    pub hfr: Option<String>,
    pub stars: Option<String>,
    pub fwhm: Option<String>,
}

/// The text of an optional owned string.
pub open spec fn opt_string_view(o: Option<String>) -> Option<Seq<char>> {
    match o {
        Some(s) => Some(s@),
        None => None,
    }
}

/// A copy of an optional header value.
fn cloned(v: Option<&String>) -> (r: Option<String>)
    ensures
        opt_string_view(r) == opt_view(v),
{
    match v {
        Some(s) => Some(s.clone()),
        None => None,
    }
}

/// The simplified record of a file's metadata: its name, image size and
/// depth, and the first available value of each quantity, trying the
/// alternative keywords in order.
pub fn create_simplified_metadata(metadata: &FitsMetadata) -> (r: SimplifiedFitsMetadata)
    ensures
        r.filename@ == metadata.filename@,
        r.width == (match metadata.image_info { Some(i) => Some(i.width), None => None::<usize> }),
        r.height == (match metadata.image_info { Some(i) => Some(i.height), None => None::<usize> }),
        r.bit_depth == (match metadata.image_info { Some(i) => Some(i.bit_depth), None => None::<i32> }),
        ({
            let h = metadata.primary_header@;
            &&& opt_string_view(r.date_obs) == first_value(h, seq!["DATE-OBS"@])
            &&& opt_string_view(r.object) == first_value(h, seq!["OBJECT"@, "OBJNAME"@, "TARGET"@])
            &&& opt_string_view(r.exposure) == first_value(h, seq!["EXPTIME"@, "EXPOSURE"@])
            &&& opt_string_view(r.filter) == first_value(h, seq!["FILTER"@, "FILTERNAME"@])
            &&& opt_string_view(r.telescope) == first_value(h, seq!["TELESCOP"@])
            &&& opt_string_view(r.instrument) == first_value(h, seq!["INSTRUME"@])
            &&& opt_string_view(r.gain) == first_value(h, seq!["GAIN"@])
            &&& opt_string_view(r.ccd_temp) == first_value(h, seq!["CCD-TEMP"@])
            &&& opt_string_view(r.binning) == first_value(h, seq!["XBINNING"@])
            &&& opt_string_view(r.ra) == first_value(h, seq!["OBJCTRA"@, "RA"@])
            &&& opt_string_view(r.dec) == first_value(h, seq!["OBJCTDEC"@, "DEC"@])
            &&& opt_string_view(r.hfr) == first_value(h, seq!["HFR"@, "STARHFR"@, "MEANHFR"@])
            &&& opt_string_view(r.stars) == first_value(h, seq!["STARS"@, "STARCOUNT"@, "NSTARS"@])
            &&& opt_string_view(r.fwhm) == first_value(h, seq!["STARSFWHM"@, "FWHM"@, "MEANFWHM"@])
        }),
{
    let h = &metadata.primary_header;
    let (width, height, bit_depth) = match &metadata.image_info {
        Some(i) => (Some(i.width), Some(i.height), Some(i.bit_depth)),
        None => (None, None, None),
    };
    SimplifiedFitsMetadata {
        filename: metadata.filename.clone(),
        width,
        height,
        bit_depth,
        date_obs: cloned(value_of_key(h, "DATE-OBS")),
        object: cloned(first_of3(h, "OBJECT", "OBJNAME", "TARGET")),
        exposure: cloned(first_of2(h, "EXPTIME", "EXPOSURE")),
        filter: cloned(first_of2(h, "FILTER", "FILTERNAME")),
        telescope: cloned(value_of_key(h, "TELESCOP")),
        instrument: cloned(value_of_key(h, "INSTRUME")),
        gain: cloned(value_of_key(h, "GAIN")),
        ccd_temp: cloned(value_of_key(h, "CCD-TEMP")),
        binning: cloned(value_of_key(h, "XBINNING")),
        ra: cloned(first_of2(h, "OBJCTRA", "RA")),
        dec: cloned(first_of2(h, "OBJCTDEC", "DEC")),
        hfr: cloned(first_of3(h, "HFR", "STARHFR", "MEANHFR")),
        stars: cloned(first_of3(h, "STARS", "STARCOUNT", "NSTARS")),
        fwhm: cloned(first_of3(h, "STARSFWHM", "FWHM", "MEANFWHM")),
    }
}

/// The header line of the CSV listing of simplified records.
pub open spec fn csv_summary_columns() -> Seq<char> {
    "filename,width,height,bit_depth,date_obs,object,exposure,filter,telescope,instrument,gain,ccd_temp,binning,ra,dec,hfr,stars,fwhm"@
}

/// Writes the header line of the CSV listing of simplified records.
pub fn csv_summary_header() -> (r: String)
    ensures
        r@ == csv_summary_columns(),
{
    String::from_str("filename,width,height,bit_depth,date_obs,object,exposure,filter,telescope,instrument,gain,ccd_temp,binning,ra,dec,hfr,stars,fwhm")
}

/// A count column: its decimal digits, or nothing.
pub open spec fn csv_count(o: Option<usize>) -> Seq<char> {
    match o {
        Some(v) => decimal(v as nat),
        None => Seq::empty(),
    }
}

/// The bit-depth column: its decimal digits, or nothing.
pub open spec fn csv_depth(o: Option<i32>) -> Seq<char> {
    match o {
        Some(v) => signed_decimal(v as int),
        None => Seq::empty(),
    }
}

/// A text column: the value as a CSV field, or nothing.
pub open spec fn csv_text(o: Option<String>) -> Seq<char> {
    match o {
        Some(v) => csv_field(v@),
        None => Seq::empty(),
    }
}

/// The CSV line of a simplified record, its columns in the order of
/// `csv_summary_columns`.
pub open spec fn csv_summary_line(r: SimplifiedFitsMetadata) -> Seq<char> {
    csv_field(r.filename@) + seq![','] + csv_count(r.width) + seq![','] + csv_count(r.height)
        + seq![','] + csv_depth(r.bit_depth) + seq![','] + csv_text(r.date_obs) + seq![','] + csv_text(r.object)
        + seq![','] + csv_text(r.exposure) + seq![','] + csv_text(r.filter) + seq![','] + csv_text(r.telescope)
        + seq![','] + csv_text(r.instrument) + seq![','] + csv_text(r.gain) + seq![','] + csv_text(r.ccd_temp)
        + seq![','] + csv_text(r.binning) + seq![','] + csv_text(r.ra) + seq![','] + csv_text(r.dec)
        + seq![','] + csv_text(r.hfr) + seq![','] + csv_text(r.stars) + seq![','] + csv_text(r.fwhm)
}

/// Appends a comma and then the text column of `o`.
fn append_text_column(line: &mut String, o: &Option<String>)
    ensures
        final(line)@ == old(line)@ + seq![','] + csv_text(*o),
{
    push_char(line, ',');
    match o {
        Some(v) => {
            let f = escape_csv(v.as_str());
            line.append(f.as_str());
        },
        None => {},
    }
    proof {
        assert(final(line)@ =~= old(line)@ + seq![','] + csv_text(*o));
    }
}

/// Appends a comma and then the count column of `o`.
fn append_count_column(line: &mut String, o: Option<usize>)
    ensures
        final(line)@ == old(line)@ + seq![','] + csv_count(o),
{
    push_char(line, ',');
    match o {
        Some(v) => {
            let d = decimal_string(v as u64);
            line.append(d.as_str());
        },
        None => {},
    }
    proof {
        assert(final(line)@ =~= old(line)@ + seq![','] + csv_count(o));
    }
}

/// Writes the CSV line of a simplified record.
pub fn csv_summary_row(record: &SimplifiedFitsMetadata) -> (r: String)
    ensures
        r@ == csv_summary_line(*record),
{
    let mut line = escape_csv(record.filename.as_str());
    append_count_column(&mut line, record.width);
    append_count_column(&mut line, record.height);
    push_char(&mut line, ',');
    match record.bit_depth {
        Some(v) => {
            let d = signed_decimal_string(v as i64);
            line.append(d.as_str());
        },
        None => {},
    }
    let ghost upto_depth = line@;
    assert(upto_depth =~= csv_field(record.filename@) + seq![','] + csv_count(record.width) + seq![',']
        + csv_count(record.height) + seq![','] + csv_depth(record.bit_depth));
    append_text_column(&mut line, &record.date_obs);
    append_text_column(&mut line, &record.object);
    append_text_column(&mut line, &record.exposure);
    append_text_column(&mut line, &record.filter);
    append_text_column(&mut line, &record.telescope);
    append_text_column(&mut line, &record.instrument);
    append_text_column(&mut line, &record.gain);
    append_text_column(&mut line, &record.ccd_temp);
    append_text_column(&mut line, &record.binning);
    append_text_column(&mut line, &record.ra);
    append_text_column(&mut line, &record.dec);
    append_text_column(&mut line, &record.hfr);
    append_text_column(&mut line, &record.stars);
    append_text_column(&mut line, &record.fwhm);
    line
}

/// The verbose CSV line of one keyword of a file: file name, keyword and
/// value, each as a CSV field.
pub open spec fn csv_keyword_line(file: Seq<char>, key: Seq<char>, value: Seq<char>) -> Seq<char> {
    csv_field(file) + seq![','] + csv_field(key) + seq![','] + csv_field(value)
}

/// The lines of the verbose CSV listing of one file: its name under the key
/// `filename`, then each header keyword with its value, in the header's order.
pub open spec fn csv_keyword_lines(md: FitsMetadata) -> Seq<Seq<char>> {
    seq![csv_field(md.filename@) + seq![','] + "filename"@ + seq![','] + csv_field(md.filename@)]
        + md.primary_header.spec_entries().map_values(|e: (Seq<char>, Seq<char>)| csv_keyword_line(md.filename@, e.0, e.1))
}

/// Writes the lines of the verbose CSV listing of one file.
pub fn csv_keyword_rows(metadata: &FitsMetadata) -> (r: Vec<String>)
    ensures
        r@.map_values(|x: String| x@) == csv_keyword_lines(*metadata),
{
    let file = escape_csv(metadata.filename.as_str());
    let mut first = file.clone();
    push_char(&mut first, ',');
    first.append("filename");
    push_char(&mut first, ',');
    first.append(file.as_str());
    let mut rows: Vec<String> = Vec::new();
    rows.push(first);
    let ghost entries = metadata.primary_header.spec_entries();
    proof {
        assert(file@ == csv_field(metadata.filename@));
        assert(rows@[0]@ =~= csv_field(metadata.filename@) + seq![','] + "filename"@ + seq![','] + csv_field(metadata.filename@));
        assert(csv_keyword_lines(*metadata)[0] == rows@[0]@);
        assert(rows@.map_values(|x: String| x@) =~= csv_keyword_lines(*metadata).take(1));
    }
    let n = metadata.primary_header.len();
    let mut i: usize = 0;
    while i < n
        invariant
            n == entries.len(),
            entries == metadata.primary_header.spec_entries(),
            file@ == csv_field(metadata.filename@),
            i <= n,
            rows@.len() == i + 1,
            rows@.map_values(|x: String| x@) == csv_keyword_lines(*metadata).take(i + 1),
        decreases n - i,
    {
        let (key, value) = metadata.primary_header.entry(i);
        let mut line = file.clone();
        push_char(&mut line, ',');
        let k = escape_csv(key.as_str());
        line.append(k.as_str());
        push_char(&mut line, ',');
        let v = escape_csv(value.as_str());
        line.append(v.as_str());
        let ghost before = rows@;
        rows.push(line);
        proof {
            assert(line@ == csv_keyword_line(metadata.filename@, entries[i as int].0, entries[i as int].1));
            assert(rows@.map_values(|x: String| x@) =~= csv_keyword_lines(*metadata).take(i + 2));
        }
        i = i + 1;
    }
    proof {
        assert(csv_keyword_lines(*metadata).take(n + 1) =~= csv_keyword_lines(*metadata));
    }
    rows
}

/// Position of the first digit or `-` in `s`.
pub open spec fn first_number_start(s: Seq<char>) -> Option<int>
    decreases s.len(),
{
    if s.len() == 0 {
        None
    } else {
        match first_number_start(s.drop_last()) {
            Some(i) => Some(i),
            None => if is_digit(s.last()) || s.last() == '-' { Some(s.len() - 1) } else { None },
        }
    }
}

/// Number of leading decimal digits of `s`.
pub open spec fn digit_prefix_len(s: Seq<char>) -> nat
    decreases s.len(),
{
    if s.len() > 0 && is_digit(s[0]) {
        1 + digit_prefix_len(s.drop_first())
    } else {
        0
    }
}

/// The first number written in `s`: from its first digit or `-` through the
/// digits that follow.
pub open spec fn first_number_text(s: Seq<char>) -> Option<Seq<char>> {
    match first_number_start(s) {
        Some(st) => Some(s.subrange(st, st + 1 + digit_prefix_len(s.subrange(st + 1, s.len() as int)))),
        None => None,
    }
}

/// The bit depth written in a header value's text: its first number read as
/// `i32`, or 0 when there is none or it does not fit.
pub open spec fn bit_depth_in(s: Seq<char>) -> int {
    match first_number_text(s) {
        Some(t) => match parse_i32_spec(t) {
            Some(v) => v,
            None => 0,
        },
        None => 0,
    }
}

/// Reads the bit depth from the text of a `BITPIX` header value.
pub fn bit_depth_from_text(s: &str) -> (r: i32)
    ensures
        r as int == bit_depth_in(s@),
{
    let cs = chars_of(s);
    let n = cs.len();
    let mut start: usize = 0;
    while start < n && !(('0' <= cs[start] && cs[start] <= '9') || cs[start] == '-')
        invariant
            n == cs@.len(),
            cs@ == s@,
            start <= n,
            first_number_start(cs@.subrange(0, start as int)) is None,
        decreases n - start,
    {
        proof {
            assert(cs@.subrange(0, start as int + 1).drop_last() =~= cs@.subrange(0, start as int));
        }
        start = start + 1;
    }
    if start == n {
        proof {
            assert(cs@.subrange(0, n as int) =~= cs@);
        }
        return 0;
    }
    proof {
        assert(cs@.subrange(0, start as int + 1).drop_last() =~= cs@.subrange(0, start as int));
        lemma_first_number_start_extends(cs@, start as int);
    }
    let mut end: usize = start + 1;
    let ghost tail = cs@.subrange(start as int + 1, n as int);
    while end < n && '0' <= cs[end] && cs[end] <= '9'
        invariant
            n == cs@.len(),
            start < end <= n,
            tail == cs@.subrange(start as int + 1, n as int),
            digit_prefix_len(tail) == (end - start - 1) + digit_prefix_len(cs@.subrange(end as int, n as int)),
        decreases n - end,
    {
        proof {
            assert(cs@.subrange(end as int, n as int).drop_first() =~= cs@.subrange(end as int + 1, n as int));
        }
        end = end + 1;
    }
    proof {
        assert(digit_prefix_len(cs@.subrange(end as int, n as int)) == 0);
    }
    match parse_i32_range(cs.as_slice(), start, end) {
        Some(v) => v,
        None => 0,
    }
}

/// The first digit or `-` of `s` is at `k` when none comes before it.
proof fn lemma_first_number_start_extends(s: Seq<char>, k: int)
    requires
        0 <= k < s.len(),
        is_digit(s[k]) || s[k] == '-',
        first_number_start(s.subrange(0, k)) is None,
    ensures
        first_number_start(s) == Some(k),
    decreases s.len(),
{
    if k < s.len() - 1 {
        assert(s.drop_last().subrange(0, k) =~= s.subrange(0, k));
        lemma_first_number_start_extends(s.drop_last(), k);
    } else {
        assert(s.drop_last() =~= s.subrange(0, k));
    }
}

} // verus!
