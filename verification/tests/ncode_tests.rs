use novel_tools::ncode::{chapter_file_contents, Ncode, NcodeError};

#[test]
fn chapter_address() {
    let n = Ncode { novel: "n3286gu".to_string(), chapter: "1".to_string() };
    assert_eq!(n.url(), "https://ncode.syosetu.com/n3286gu/1");
}

#[test]
fn addresses_in_every_accepted_form() {
    for a in [
        "https://ncode.syosetu.com/n3286gu/1/",
        "https://ncode.syosetu.com/n3286gu/1",
        "http://ncode.syosetu.com/n3286gu/1",
        "ncode.syosetu.com/n3286gu/1/",
        "n3286gu/1",
        "n3286gu/1/",
    ] {
        let n = Ncode::from_address(a).unwrap();
        assert_eq!(n.novel, "n3286gu", "{a}");
        assert_eq!(n.chapter, "1", "{a}");
    }
}

#[test]
fn the_site_dots_match_any_character() {
    let n = Ncode::from_address("ncodeXsyosetu-com/ab/12").unwrap();
    assert_eq!((n.novel.as_str(), n.chapter.as_str()), ("ab", "12"));
    // Where the site cannot be taken, the rest must match alone.
    let n = Ncode::from_address("ncode0syosetu0com/abc/").unwrap();
    assert_eq!((n.novel.as_str(), n.chapter.as_str()), ("ncode0syosetu0com", "abc"));
}

#[test]
fn other_addresses_are_refused() {
    for a in [
        "",
        "https://example.com/n3286gu/1",
        "n3286gu",
        "n3286gu/1//",
        "N3286GU/1",
        "https://ncode.syosetu.com/n3286gu/1/2",
        "ftp://ncode.syosetu.com/a/1",
        "ncode.syosetu.com\n/a/1x/",
    ] {
        assert_eq!(Ncode::from_address(a).unwrap_err(), NcodeError::NotAnNcodeUrl, "{a:?}");
    }
}

#[test]
fn address_round_trip() {
    let n = Ncode { novel: "n9669bk".to_string(), chapter: "42".to_string() };
    let back = Ncode::from_address(&n.url()).unwrap();
    assert_eq!((back.novel, back.chapter), (n.novel, n.chapter));
}

#[test]
fn chapter_text_from_page() {
    let page = "<html><body><div id=\"other\">x</div><div id=\"novel_honbun\"><p>一行目</p><p>二行目</p></div></body></html>";
    assert_eq!(Ncode::chapter_text(page).unwrap(), "一行目二行目");
    assert_eq!(Ncode::chapter_text("<html><p>none</p></html>").unwrap_err(), NcodeError::ContentsNotFound);
}

#[test]
fn chapter_file_is_trimmed_text_and_a_line_feed() {
    assert_eq!(chapter_file_contents("\n  本文\n\n"), "本文\n");
    assert_eq!(chapter_file_contents(""), "\n");
}
