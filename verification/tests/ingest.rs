use ibrief::briefing::{ContentItem, Timestamp};
use ibrief::ingest::{fetch_all, fetch_one, normalize_entries, FeedEntry, Source};
use ibrief::markup::check_tame;

fn source() -> Source {
    Source { id: "verge".into(), url: "https://feed".into() }
}

const RSS: &str = "<?xml version=\"1.0\"?><rss version=\"2.0\"><channel><title>F</title>\
<item><title>Erster</title><link>https://x/1</link><description>Roh</description>\
<pubDate>Sun, 28 Jun 2026 06:30:00 GMT</pubDate></item>\
<item><title>Zweiter</title><guid isPermaLink=\"false\">g-2</guid></item>\
<item><description>ohne alles</description></item></channel></rss>";

#[test]
fn a_feed_becomes_items() {
    let items = fetch_one(&source(), &RSS.as_bytes().to_vec()).unwrap();
    assert_eq!(items.len(), 3);
    assert_eq!(items[0].id, "https://x/1");
    assert_eq!(items[0].url, "https://x/1");
    assert_eq!(items[0].source_id, "verge");
    assert_eq!(items[0].title, "Erster");
    assert_eq!(items[0].raw_summary.as_deref(), Some("Roh"));
    assert_eq!(items[0].published_at, Some(Timestamp { seconds: 1_782_628_200, nanos: 0 }));
    assert!(items[0].summary.is_none() && items[0].topics.is_empty());
    assert_eq!(items[1].id, "g-2");
    assert_eq!(items[1].url, "");
    assert_eq!(items[2].title, "");
    assert!(!items[2].id.is_empty());
}

#[test]
fn what_is_no_feed_gives_nothing() {
    assert!(fetch_one(&source(), &b"kein Feed".to_vec()).is_none());
    assert!(fetch_one(&source(), &b"<html></html>".to_vec()).is_none());
    assert!(fetch_one(&source(), &vec![]).is_none());
}

fn entry(links: Vec<&str>) -> FeedEntry {
    FeedEntry {
        id: "e".into(),
        title: Some("T".into()),
        links: links.into_iter().map(|l| l.into()).collect(),
        summary: None,
        published: None,
    }
}

#[test]
fn the_first_link_identifies_an_entry() {
    let items = normalize_entries(&source(), &vec![entry(vec!["a", "b"]), entry(vec![]), entry(vec!["", "b"])]);
    let ids: Vec<&str> = items.iter().map(|i| i.id.as_str()).collect();
    assert_eq!(ids, vec!["a", "e", "e"]);
    assert_eq!(items[2].url, "");
    assert!(items[0].raw_summary.is_none());
}

fn item(id: &str) -> ContentItem {
    normalize_entries(&source(), &vec![entry(vec![id])]).remove(0)
}

#[test]
fn a_broken_source_is_passed_over() {
    let all = fetch_all(vec![Some(vec![item("1"), item("2")]), None, Some(vec![]), Some(vec![item("3")])]);
    let ids: Vec<&str> = all.iter().map(|i| i.id.as_str()).collect();
    assert_eq!(ids, vec!["1", "2", "3"]);
}

fn titles(feed: &str) -> Option<Vec<String>> {
    let items = fetch_one(&source(), &feed.as_bytes().to_vec())?;
    Some(items.into_iter().map(|i| i.title).collect())
}

fn podcast(inner: &str) -> String {
    format!(
        "<?xml version=\"1.0\"?><rss version=\"2.0\" xmlns:itunes=\"http://www.itunes.com/dtds/podcast-1.0.dtd\" \
         xmlns:media=\"http://search.yahoo.com/mrss/\"><channel><title>F</title>\
         <item><title>Folge</title><link>https://x/1</link>{inner}</item></channel></rss>"
    )
}

#[test]
fn play_times_are_read() {
    let folge = Some(vec!["Folge".to_string()]);
    assert_eq!(titles(&podcast("<itunes:duration>1:02:03</itunes:duration>")), folge);
    assert_eq!(titles(&podcast("<itunes:duration>3600</itunes:duration>")), folge);
    assert_eq!(titles(&podcast("<media:thumbnail url=\"https://x/t.jpg\" time=\"12:05:01.123\"/>")), folge);
    assert_eq!(titles(&podcast("<media:text start=\"00:00:03.000\" end=\"00:00:10.000\">Hallo</media:text>")), folge);
}

#[test]
fn play_times_that_fit_nowhere_are_refused() {
    for bad in [
        "<itunes:duration>99999999999999999999999</itunes:duration>",
        "<itunes:duration>18446744073709551615</itunes:duration>",
        "<itunes:duration>5124095576030432:10:10</itunes:duration>",
        "<itunes:duration>x 1 y 99999999999999999:00:01</itunes:duration>",
        "<itunes:duration>9999999999<![CDATA[99999999999]]></itunes:duration>",
        "<itunes:duration>9999999999<!-- und -->99999999999</itunes:duration>",
        "<itunes:duration>&#x663;</itunes:duration>",
        "<itunes:duration>\u{663}:\u{663}</itunes:duration>",
        "<itunes:duration>\u{ff11}</itunes:duration>",
        "<media:thumbnail url=\"https://x/t.jpg\" time=\"99999999999999999999999\"/>",
        "<media:text end = '99999999999999999999999'>Hallo</media:text>",
        "<media:text type=\"plain\"start=\"99999999999999999999999\">Hallo</media:text>",
    ] {
        assert!(!check_tame(&podcast(bad).into_bytes()), "{bad}");
        assert!(titles(&podcast(bad)).is_none(), "{bad}");
    }
}

#[test]
fn play_times_that_fit_are_taken() {
    let folge = Some(vec!["Folge".to_string()]);
    for good in [
        "<itunes:duration>18446744073709551614</itunes:duration>",
        "<itunes:duration>000000000000000000000000000000012</itunes:duration>",
        "<itunes:duration>12.123456789012345678901234567890</itunes:duration>",
        "<itunes:duration>5124095576030431:00:14</itunes:duration>",
        "<itunes:duration>1 2 3 4 5 6 7 8 9 10 11 12 99999999999999999999999</itunes:duration>",
        "<itunes:duration>12 Min. für alle – 99&amp;</itunes:duration>",
        "<itunes:duration><b>99999999999999999999999</b></itunes:duration>",
        "<description><![CDATA[<media:text start=\"99999999999999999999999\">]]></description>",
        "<description start=\"99999999999999999999999\">x</description>",
    ] {
        assert_eq!(titles(&podcast(good)), folge, "{good}");
    }
    let plain = "<rss version=\"2.0\"><channel><title>F</title><item><title>A</title>\
        <duration>99999999999999999999999</duration></item></channel></rss>";
    assert_eq!(titles(plain), Some(vec!["A".to_string()]));
}

fn nested(depth: usize) -> String {
    format!("<rss version=\"2.0\">{}{}</rss>", "<a>".repeat(depth), "</a>".repeat(depth))
}

fn deep(name: &str, depth: usize) -> String {
    format!("{}{}", format!("<{name} url=\"https://x/y\" text=\"t\">").repeat(depth), format!("</{name}>").repeat(depth))
}

#[test]
fn bottomless_nesting_is_refused() {
    assert!(check_tame(&nested(65_534).into_bytes()));
    assert!(!check_tame(&nested(65_535).into_bytes()));
    let left_over = format!("<rss version=\"2.0\">{}</rss>", "<a></b>".repeat(65_535));
    assert!(!check_tame(&left_over.into_bytes()));
    let wide = format!("<rss version=\"2.0\">{}</rss>", "<a></a>".repeat(70_000));
    assert!(check_tame(&wide.into_bytes()));
    for name in ["media:content", "itunes:category", "x:content"] {
        assert!(titles(&podcast(&deep(name, 100))).is_some());
        assert!(titles(&podcast(&deep(name, 101))).is_none());
    }
    assert!(titles(&podcast(&deep("media:group", 300))).is_some());
}

/// The titles that the parser finds itself.
fn parsed(feed: &[u8]) -> Option<Vec<String>> {
    let feed = feed_rs::parser::parse(feed).ok()?;
    Some(feed.entries.into_iter().map(|e| e.title.map(|t| t.content).unwrap_or_default()).collect())
}

#[test]
fn odd_markup_is_left_to_the_parser() {
    let head = "<rss version=\"2.0\"><channel><title>F</title><item><title>A</title></item></channel>";
    for odd in [
        "<rss><channel></rss></channel>".to_string(),
        "<rss></b>".to_string(),
        "<rss".to_string(),
        "<".to_string(),
        "<>".to_string(),
        "<rss><!-- offen".to_string(),
        "<rss><![CDATA[ offen".to_string(),
        "<!ATTLIST><a/>".to_string(),
        "<?><a/>".to_string(),
        "</a><rss/>".to_string(),
        format!("{head}</channel><x></rss>"),
        format!("{head}<!-- offen"),
        format!("{head}<![CDATA["),
        format!("{head}</rss x=\">\">"),
        format!("<!DocType rss [<!ELEMENT x (#PCDATA)>\n<?p ]> ?><!ATTLIST a b CDATA \"]>\"><!NOTATION n SYSTEM '>'><!X>]>{head}</rss>"),
        format!("<!doctype>{head}</rss>"),
        format!("{head}</rss>\u{0}"),
        head.replace('A', "A\u{0}\u{1b}$B"),
        head.replace("<title>A", "<title>A<b></c></b>"),
        head.replace("<title>A", "<title>&offen"),
        head.replace("<title>A", "<dc:creator xmlns:dc=\"http://purl.org/dc/elements/1.1/\"><a><b>&#0;</b></a></dc:creator><title>A"),
    ] {
        assert!(check_tame(&odd.as_bytes().to_vec()), "{odd}");
        assert_eq!(titles(&odd), parsed(odd.as_bytes()), "{odd}");
    }
}

#[test]
fn other_encodings_are_read() {
    let latin = b"<?xml version=\"1.0\" encoding=\"ISO-8859-1\"?><rss version=\"2.0\"><channel><title>F</title>\
        <item><title>\xfcber</title></item></channel></rss>";
    let items = fetch_one(&source(), &latin.to_vec()).unwrap();
    assert_eq!(items[0].title, "über");
    let japanese = b"<?xml version=\"1.0\" encoding=\"ISO-2022-JP\"?>\
        <rss version=\"2.0\" xmlns:itunes=\"http://www.itunes.com/dtds/podcast-1.0.dtd\"><channel><title>F</title>\
        <item><title>\x1b$B$\"\x1b(B</title><itunes:duration>12:00</itunes:duration></item></channel></rss>";
    let items = fetch_one(&source(), &japanese.to_vec()).unwrap();
    assert_eq!(items[0].title, "あ");
    for le in [true, false] {
        let wide: Vec<u8> =
            RSS.encode_utf16().flat_map(|u| if le { u.to_le_bytes() } else { u.to_be_bytes() }).collect();
        assert!(parsed(&wide).is_none());
        assert!(fetch_one(&source(), &wide).is_none());
    }
}

#[test]
fn document_types_may_declare_entities() {
    let feed = "<?xml version=\"1.0\"?><!DOCTYPE rss PUBLIC \"-//X//DTD [RSS]//EN\" 'x>.dtd' [\n\
        <!-- ] > -->\n<!ENTITY nbsp \"&#160; ]>\">\n<!ENTITY % HTMLlat1 PUBLIC 'x' \"y\">\n%HTMLlat1;\n] >\n\
        <rss version=\"2.0\"><channel><title>F</title><item><title>A</title></item></channel></rss>";
    assert_eq!(titles(feed), Some(vec!["A".to_string()]));
}

#[test]
fn deep_markup_is_read() {
    let deep = format!("{}tief{}", "<b>".repeat(2000), "</b>".repeat(2000));
    let feed = format!(
        "<feed xmlns=\"http://www.w3.org/2005/Atom\"><id>f</id><title>F</title><entry><id>e</id><title>Eintrag</title>\
         <content type=\"xhtml\"><div>{deep}</div></content></entry></feed>"
    );
    assert_eq!(titles(&feed), Some(vec!["Eintrag".to_string()]));
}

#[test]
fn ordinary_markup_is_taken() {
    let rss = "<?xml version=\"1.0\"?>\n<!DOCTYPE rss>\n<!-- Kopf > < -->\n<rss version='2.0'><channel ><title>F</title>\n\
        <item><title><![CDATA[A <b> & \"C\"]]></title><link>https://x/1</link></item >\
        <item><title>B</title><enclosure url=\"https://x/a>b.mp3\" type=\"audio/mpeg\" length=\"1\"/></item>\
        </channel></rss>\n";
    assert!(check_tame(&rss.as_bytes().to_vec()));
    let atom = "<feed xmlns=\"http://www.w3.org/2005/Atom\"><id>f</id><title>F</title><updated>2026-06-28T06:30:00Z</updated>\
        <entry><id>e</id><title>Eintrag</title><link href=\"https://x/e\"/><updated>2026-06-28T06:30:00Z</updated></entry></feed>";
    assert_eq!(titles(atom), Some(vec!["Eintrag".to_string()]));
    let json = "{\"version\":\"https://jsonfeed.org/version/1\",\"title\":\"F\",\
        \"items\":[{\"id\":\"1\",\"url\":\"https://x/1\",\"title\":\"J <\",\"content_text\":\"x\"}]}";
    assert!(check_tame(&json.as_bytes().to_vec()));
    assert_eq!(titles(json), Some(vec!["J <".to_string()]));
}
