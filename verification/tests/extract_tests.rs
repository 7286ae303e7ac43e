use crawl_engine::extract::{extract_links, href};

fn links(body: &[u8]) -> Vec<Vec<u8>> {
    extract_links(body)
}

#[test]
fn anchors_give_their_links_in_order() {
    let body = b"<html><body><a href=\"/a\">A</a> text <a href='/b'>B</a><a href=/c>C</a></body></html>";
    assert_eq!(links(body), vec![b"/a".to_vec(), b"/b".to_vec(), b"/c".to_vec()]);
}

#[test]
fn a_page_without_anchors_has_no_links() {
    assert_eq!(links(b""), Vec::<Vec<u8>>::new());
    assert_eq!(links(b"<p>no links here</p>"), Vec::<Vec<u8>>::new());
    assert_eq!(links(b"<a>bare</a><abbr href=\"/x\">x</abbr><area href=\"/y\">"), Vec::<Vec<u8>>::new());
    assert_eq!(links(b"<a"), Vec::<Vec<u8>>::new());
    assert_eq!(links(b"<a "), Vec::<Vec<u8>>::new());
}

#[test]
fn other_attributes_are_passed_over() {
    let body = b"<a class=\"x y\" title='go href=\"/wrong\"' data-href=\"/no\" href=\"/right\" id=z>r</a>";
    assert_eq!(links(body), vec![b"/right".to_vec()]);
    assert_eq!(links(b"<a download href=/file>f</a>"), vec![b"/file".to_vec()]);
}

#[test]
fn case_and_blanks_do_not_matter() {
    let body = b"<A\n\tHREF = \"/upper\" >U</A><a\r\nhref\n=\n'/lines'\n>L</a>";
    assert_eq!(links(body), vec![b"/upper".to_vec(), b"/lines".to_vec()]);
}

#[test]
fn the_first_href_of_a_tag_counts() {
    assert_eq!(links(b"<a href=\"/one\" href=\"/two\">x</a>"), vec![b"/one".to_vec()]);
}

#[test]
fn values_are_handed_out_as_they_stand() {
    assert_eq!(links(b"<a href=\"  /spaced page \">x</a>"), vec![b"  /spaced page ".to_vec()]);
    assert_eq!(links(b"<a href=\"\">x</a>"), vec![b"".to_vec()]);
    assert_eq!(links(b"<a href=>x</a>"), vec![b"".to_vec()]);
    assert_eq!(links(b"<a href='it\"s'>x</a>"), vec![b"it\"s".to_vec()]);
}

#[test]
fn an_unfinished_tag_runs_to_the_end() {
    assert_eq!(links(b"<a href=\"/open"), vec![b"/open".to_vec()]);
    assert_eq!(links(b"<a href=/open"), vec![b"/open".to_vec()]);
    assert_eq!(links(b"<a href"), Vec::<Vec<u8>>::new());
}

#[test]
fn a_tag_ends_at_the_first_closing_bracket() {
    assert_eq!(links(b"<a title=\"a>b\" href=\"/late\">x</a>"), Vec::<Vec<u8>>::new());
    assert_eq!(links(b"<a href=/x><a href=/y>"), vec![b"/x".to_vec(), b"/y".to_vec()]);
}

#[test]
fn href_reads_the_attributes_of_one_tag() {
    assert_eq!(href(b" href=\"/a\" class=b"), Some(b"/a".to_vec()));
    assert_eq!(href(b" class=b"), None);
    assert_eq!(href(b""), None);
    assert_eq!(href(b"   "), None);
    assert_eq!(href(b" =x href=y"), Some(b"y".to_vec()));
    assert_eq!(href(b" a = 'q' HrEf = z "), Some(b"z".to_vec()));
}
