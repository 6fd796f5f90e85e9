use celtic_names::name_scraper::find_names_in_html;
use celtic_names::name_scraper::find_names_in_page;

fn sample_page() -> String {
    "
        <html>
        <body>
        <table><tbody>
        <tr>
            <td><b><a>Potato</a></b></td>
            <td><b><a>Batata</a></b></td>
            <td><b><a>Wuuur</a></b></td>
        </tr>
        </tbody>
        </table>
        </body>
        </html>
        "
    .to_string()
}

#[test]
fn fetch_names_correctly() {
    let names = find_names_in_page(Some(sample_page()));

    assert!(names.is_some());
}

#[test]
fn parse_valid_html() {
    let page_text = sample_page();

    let names = find_names_in_html(page_text);

    assert_eq!(
        names,
        vec![
            "potato".to_string(),
            "batata".to_string(),
            "wuuur".to_string()
        ]
    );
}

#[test]
fn no_page_no_names() {
    assert!(find_names_in_page(None).is_none());
}

#[test]
fn unescapes_before_filtering() {
    // The escapes become angle brackets before the alphabetic filter runs,
    // so their letters do not leak into the name.
    let page_text = "<html><body><table><tbody><tr>\
        <td><b><a>Po&lt;ta&gt;to</a></b></td>\
        </tr></tbody></table></body></html>"
        .to_string();

    let names = find_names_in_html(page_text);

    assert_eq!(names, vec!["potato".to_string()]);
}
