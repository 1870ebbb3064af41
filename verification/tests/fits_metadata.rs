use psf_guard::commands::read_fits::{
    create_simplified_metadata, csv_keyword_rows, csv_summary_header, csv_summary_row, escape_csv,
    format_fits_metadata as read_fits_format, is_fits_extension, is_fits_file,
};
use psf_guard::fits::{block_has_end, format_fits_metadata, metadata_from_header, parse_fits_header};
use psf_guard::header_map::HeaderMap;

fn card(s: &str) -> String {
    format!("{:<80}", s)
}

fn sample_header() -> Vec<u8> {
    let mut text = String::new();
    text.push_str(&card("SIMPLE  =                    T / conforming"));
    text.push_str(&card("BITPIX  =                   16"));
    text.push_str(&card("NAXIS   =                    2"));
    text.push_str(&card("NAXIS1  =                  100"));
    text.push_str(&card("NAXIS2  =                   50"));
    text.push_str(&card("OBJECT  = 'M31     '           / target"));
    text.push_str(&card("EXPTIME =                120.0"));
    text.push_str(&card("COMMENT this = not a keyword"));
    text.push_str(&card("END"));
    text.push_str(&card("IGNORED =                    1"));
    text.into_bytes()
}

#[test]
fn header_cards_are_read_until_end() {
    let h = parse_fits_header(&sample_header());
    assert_eq!(h.len(), 7);
    assert_eq!(h.get("SIMPLE").map(|s| s.as_str()), Some("T"));
    assert_eq!(h.get("BITPIX").map(|s| s.as_str()), Some("16"));
    assert_eq!(h.get("OBJECT").map(|s| s.as_str()), Some("M31"));
    assert_eq!(h.get("EXPTIME").map(|s| s.as_str()), Some("120.0"));
    assert!(h.get("COMMENT").is_none());
    assert!(h.get("IGNORED").is_none());
    let keys: Vec<String> = (0..h.len()).map(|i| h.entry(i).0.clone()).collect();
    assert_eq!(keys, vec!["BITPIX", "EXPTIME", "NAXIS", "NAXIS1", "NAXIS2", "OBJECT", "SIMPLE"]);
}

#[test]
fn header_skips_invalid_utf8_and_strips_quotes() {
    let mut bytes = card("A = \"quoted\" ").into_bytes();
    let mut bad = card("B = 1").into_bytes();
    bad[70] = 0xff;
    bytes.extend_from_slice(&bad);
    bytes.extend_from_slice(card("  = 5").as_bytes());
    bytes.extend_from_slice(b"C = 'x' / short card");
    let h = parse_fits_header(&bytes);
    assert_eq!(h.get("A").map(|s| s.as_str()), Some("quoted"));
    assert!(h.get("B").is_none());
    assert_eq!(h.get("C").map(|s| s.as_str()), Some("x"));
    assert_eq!(h.len(), 2);
}

#[test]
fn later_cards_override_earlier_ones() {
    let mut bytes = card("KEY = 1").into_bytes();
    bytes.extend_from_slice(card("KEY = 2").as_bytes());
    let h = parse_fits_header(&bytes);
    assert_eq!(h.len(), 1);
    assert_eq!(h.get("KEY").map(|s| s.as_str()), Some("2"));
}

#[test]
fn end_marker_detection() {
    assert!(block_has_end(b"abc END  "));
    assert!(!block_has_end(b"ENDX"));
    assert!(!block_has_end(b"END"));
}

#[test]
fn metadata_from_primary_header() {
    let md = metadata_from_header("a.fits".to_string(), &sample_header());
    assert_eq!(md.filename, "a.fits");
    assert_eq!(md.headers.len(), 1);
    assert_eq!(md.headers[0].hdu_index, 0);
    assert!(md.headers[0].hdu_name.is_none());
    let info = md.image_info.as_ref().unwrap();
    assert_eq!(info.width, 100);
    assert_eq!(info.height, 50);
    assert_eq!(info.bit_depth, 16);
    assert_eq!(info.dimensions, vec![100, 50]);
    assert_eq!(md.primary_header.len(), 7);
}

#[test]
fn metadata_needs_two_dimensions() {
    let mut bytes = card("NAXIS   = 3").into_bytes();
    bytes.extend_from_slice(card("NAXIS1  = 10").as_bytes());
    bytes.extend_from_slice(card("NAXIS3  = 7").as_bytes());
    bytes.extend_from_slice(card("BITPIX  = -32").as_bytes());
    bytes.extend_from_slice(card("EXTNAME = 'SCI'").as_bytes());
    let md = metadata_from_header("b.fit".to_string(), &bytes);
    let info = md.image_info.as_ref().unwrap();
    assert_eq!(info.dimensions, vec![10, 7]);
    assert_eq!(info.bit_depth, -32);
    assert_eq!(md.headers[0].hdu_name.as_deref(), Some("SCI"));

    let only_one = card("NAXIS = 1").into_bytes();
    assert!(metadata_from_header("c".to_string(), &only_one).image_info.is_none());
}

#[test]
fn summary_text() {
    let md = metadata_from_header("a.fits".to_string(), &sample_header());
    let text = format_fits_metadata(&md, false);
    assert_eq!(
        text,
        "FITS File: a.fits\nHDUs: 1\n\nImage Information:\n  Dimensions: 100 x 50\n  Bit Depth: 16\n\nKey Metadata:\n  Object: M31\n  Exposure: 120.0s\n"
    );
    let verbose = format_fits_metadata(&md, true);
    assert!(verbose.starts_with(&text));
    assert_eq!(
        &verbose[text.len()..],
        "\nHDU 0  - All Keywords:\n  BITPIX           = 16\n  EXPTIME          = 120.0\n  NAXIS            = 2\n  NAXIS1           = 100\n  NAXIS2           = 50\n  OBJECT           = M31\n  SIMPLE           = T\n"
    );
}

#[test]
fn summary_with_fallback_keywords() {
    let mut bytes = card("OBJNAME = 'NGC 7000'").into_bytes();
    bytes.extend_from_slice(card("XBINNING= 2").as_bytes());
    bytes.extend_from_slice(card("RA      = '10 00 00'").as_bytes());
    bytes.extend_from_slice(card("DEC     = '+20 00 00'").as_bytes());
    bytes.extend_from_slice(card("CCD-TEMP= -10").as_bytes());
    bytes.extend_from_slice(card("NAXIS   = 3").as_bytes());
    bytes.extend_from_slice(card("NAXIS1  = 4").as_bytes());
    bytes.extend_from_slice(card("NAXIS2  = 5").as_bytes());
    bytes.extend_from_slice(card("NAXIS3  = 6").as_bytes());
    let md = metadata_from_header("n.fits".to_string(), &bytes);
    assert_eq!(
        format_fits_metadata(&md, false),
        "FITS File: n.fits\nHDUs: 1\n\nImage Information:\n  Dimensions: 4 x 5\n  Bit Depth: 0\n  Full Shape: [4, 5, 6]\n\nKey Metadata:\n  Object: NGC 7000\n  CCD Temp: -10°C\n  Binning: 2x2\n  RA/Dec: 10 00 00 / +20 00 00\n"
    );
}

#[test]
fn read_fits_listing() {
    let md = metadata_from_header("a.fits".to_string(), &sample_header());
    assert_eq!(
        read_fits_format(&md, false),
        "Filename: a.fits\nImage: 100x50 (16-bit)\n\nKey Headers:\n  Object: M31\n  Exposure: 120.0\n"
    );
    let mut bytes = card("SWCREATE= 'N.I.N.A.'").into_bytes();
    bytes.extend_from_slice(card("HFR     = 2.5").as_bytes());
    let nina = metadata_from_header("x".to_string(), &bytes);
    assert_eq!(
        read_fits_format(&nina, true),
        "Filename: x\n\nKey Headers:\n\nN.I.N.A. Headers:\n  Software: N.I.N.A.\n  HFR: 2.5\n\nAll Headers:\n  HFR: 2.5\n  SWCREATE: N.I.N.A.\n"
    );
}

#[test]
fn simplified_record() {
    let mut bytes = card("TARGET  = 'Vega'").into_bytes();
    bytes.extend_from_slice(card("EXPOSURE= 30").as_bytes());
    bytes.extend_from_slice(card("STARCOUNT= 12").as_bytes());
    let md = metadata_from_header("v.fits".to_string(), &bytes);
    let s = create_simplified_metadata(&md);
    assert_eq!(s.filename, "v.fits");
    assert_eq!(s.object.as_deref(), Some("Vega"));
    assert_eq!(s.exposure.as_deref(), Some("30"));
    assert_eq!(s.stars.as_deref(), Some("12"));
    assert!(s.width.is_none());
    assert!(s.fwhm.is_none());
}

#[test]
fn csv_escaping() {
    assert_eq!(escape_csv("plain"), "plain");
    assert_eq!(escape_csv("a,b"), "\"a,b\"");
    assert_eq!(escape_csv("say \"hi\""), "\"say \"\"hi\"\"\"");
    assert_eq!(escape_csv("two\nlines"), "\"two\nlines\"");
}

#[test]
fn csv_listing_lines() {
    let md = metadata_from_header("m,31.fits".to_string(), &sample_header());
    assert_eq!(
        csv_summary_header(),
        "filename,width,height,bit_depth,date_obs,object,exposure,filter,telescope,instrument,gain,ccd_temp,binning,ra,dec,hfr,stars,fwhm"
    );
    let row = csv_summary_row(&create_simplified_metadata(&md));
    assert_eq!(row, "\"m,31.fits\",100,50,16,,M31,120.0,,,,,,,,,,,");
    assert_eq!(row.matches(',').count(), 18);
    let lines = csv_keyword_rows(&md);
    assert_eq!(
        lines,
        vec![
            "\"m,31.fits\",filename,\"m,31.fits\"",
            "\"m,31.fits\",BITPIX,16",
            "\"m,31.fits\",EXPTIME,120.0",
            "\"m,31.fits\",NAXIS,2",
            "\"m,31.fits\",NAXIS1,100",
            "\"m,31.fits\",NAXIS2,50",
            "\"m,31.fits\",OBJECT,M31",
            "\"m,31.fits\",SIMPLE,T",
        ]
    );
}

#[test]
fn fits_extensions() {
    assert!(is_fits_extension(Some("fits")));
    assert!(is_fits_extension(Some("FIT")));
    assert!(is_fits_extension(Some("Fts")));
    assert!(!is_fits_extension(Some("png")));
    assert!(!is_fits_extension(None));
}

#[test]
fn fits_paths() {
    assert!(is_fits_file("a/b.FIT"));
    assert!(is_fits_file("b.fts"));
    assert!(is_fits_file("/data/night/m31.fits"));
    assert!(!is_fits_file("b.fits.gz"));
    assert!(!is_fits_file("fits"));
    assert!(!is_fits_file(".fits"));
    assert!(!is_fits_file("dir.fits/.."));
}

#[test]
fn header_map_insert_and_get() {
    let mut h = HeaderMap::new();
    h.insert("b".to_string(), "2".to_string());
    h.insert("a".to_string(), "1".to_string());
    h.insert("b".to_string(), "3".to_string());
    assert_eq!(h.len(), 2);
    assert_eq!(h.entry(0).0, "a");
    assert_eq!(h.get("b").map(|s| s.as_str()), Some("3"));
    assert!(h.contains_key("a"));
    assert!(!h.contains_key("c"));
    let copy = h.duplicate();
    assert_eq!(copy.len(), 2);
    assert_eq!(copy.get("a").map(|s| s.as_str()), Some("1"));
}
