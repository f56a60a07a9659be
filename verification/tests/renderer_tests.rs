use novel_tools::renderer::{
    get_chapter_html, get_file_contents, get_simple_html, minimum_common_line, ChapterLine,
    LineCountError, LineType,
};

fn lines(xs: &[&str]) -> Vec<String> {
    xs.iter().map(|x| x.to_string()).collect()
}

#[test]
fn new_line_from_text_or_blank() {
    let l = ChapterLine::new(3, "本文".to_string());
    assert_eq!(l.linetype, LineType::Contents);
    assert_eq!(l.linenum, 3);
    assert_eq!(l.contents, vec!["本文".to_string()]);
    let b = ChapterLine::new(4, " \u{3000}".to_string());
    assert_eq!(b.linetype, LineType::ParagraphBreak);
    assert!(b.contents.is_empty());
}

#[test]
fn adding_to_lines() {
    let mut l = ChapterLine::new(0, "a".to_string());
    l.add("b".to_string());
    l.add("".to_string());
    assert_eq!(l.contents, lines(&["a", "b", ""]));
    let mut b = ChapterLine::new(1, "".to_string());
    b.add("  ".to_string());
    assert_eq!(b.linetype, LineType::ParagraphBreak);
    assert!(b.contents.is_empty());
}

#[test]
fn file_contents_follow_the_first_version() {
    let files = vec![lines(&["一", "", "三"]), lines(&["one", "", "three"])];
    let chapter = get_file_contents(&files, 3);
    assert_eq!(chapter.len(), 3);
    assert_eq!(chapter[0].contents, lines(&["一", "one"]));
    assert_eq!(chapter[1].linetype, LineType::ParagraphBreak);
    assert_eq!(chapter[2].linenum, 2);
    assert_eq!(chapter[2].contents, lines(&["三", "three"]));
    let few = get_file_contents(&files, 2);
    assert_eq!(few.len(), 2);
}

#[test]
fn line_counts() {
    assert!(matches!(minimum_common_line(&vec![], true), Err(LineCountError::EmptyFileList)));
    assert_eq!(minimum_common_line(&vec![5, 3, 4], false).unwrap(), 3);
    assert_eq!(minimum_common_line(&vec![4, 4], true).unwrap(), 4);
    match minimum_common_line(&vec![4, 5], true) {
        Err(LineCountError::LengthMismatch { lines }) => assert_eq!(lines, vec![4, 5]),
        other => panic!("unexpected {:?}", other),
    }
}

#[test]
fn side_by_side_page() {
    let files = vec![lines(&["a", "<b>"]), lines(&["c"])];
    let page = get_simple_html("T&C", 2, &files);
    assert_eq!(
        page,
        "<!DOCTYPE html><title>T&amp;C</title>\
         <div id=\"line-1\"><div><div>a</div><br><div>c</div><br></div></div>\
         <div id=\"line-2\"><div><div>&lt;b&gt;</div><br><div></div><br></div></div>"
    );
    assert_eq!(get_simple_html("x", 0, &files), "<!DOCTYPE html><title>x</title>");
}

#[test]
fn chapter_page() {
    let files = vec![lines(&["\"a\"", ""]), lines(&["b", ""])];
    let chapter = get_file_contents(&files, 2);
    let page = get_chapter_html("Title", &chapter);
    assert_eq!(
        page,
        "<!DOCTYPE html><title>Title</title>\
         <div id=\"line-0\"><div>&quot;a&quot;<br>b<br></div></div>\
         <div id=\"line-1\"><p></p></div>"
    );
}

#[test]
fn lines_stay_well_formed() {
    let mut l = ChapterLine::new(0, "本文".to_string());
    l.add(" ".to_string());
    assert_eq!(l.linetype, LineType::Contents);
    assert!(!l.contents[0].trim().is_empty());
    let mut b = ChapterLine::new(1, "\t".to_string());
    b.add("".to_string());
    assert!(b.contents.is_empty());
}
