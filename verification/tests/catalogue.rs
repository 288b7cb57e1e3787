use splaunch::maps::{host_allowed, parse_catalogue, side_elmos};

const SAMPLE: &str = "<a:MapItems><a:MapItem><a:Height>16</a:Height>\
<a:Name>Aberdeen3v3v3</a:Name><a:ResourceID>7116</a:ResourceID></a:MapItem>\
<a:MapItem><a:Name>Comet Catcher Redux</a:Name><a:ResourceID>55646</a:ResourceID>\
</a:MapItem></a:MapItems>";

#[test]
fn the_catalogue_is_names_with_the_ids_that_address_them() {
    let maps = parse_catalogue(SAMPLE);
    assert_eq!(maps.len(), 2);
    assert_eq!(maps[0].name, "Aberdeen3v3v3");
    assert_eq!(maps[0].resource_id, 7116);
    assert_eq!(maps[1].name, "Comet Catcher Redux");
}

#[test]
fn a_map_carries_the_size_the_catalogue_knows() {
    let maps = parse_catalogue(SAMPLE);
    assert_eq!(maps[0].height_elmos, Some(16 * 512));
    // The second entry has no dimensions, and says so rather than guessing.
    assert_eq!(maps[1].height_elmos, None);
    assert_eq!(maps[1].width_elmos, None);
}

#[test]
fn an_implausible_size_is_refused() {
    assert_eq!(side_elmos(Some("0")), None);
    assert_eq!(side_elmos(Some("")), None);
    assert_eq!(side_elmos(Some("9999")), None);
    assert_eq!(side_elmos(Some("12")), Some(12 * 512));
}

#[test]
fn a_response_without_maps_is_empty_rather_than_wrong() {
    assert!(parse_catalogue("<s:Envelope/>").is_empty());
}

#[test]
fn an_entry_missing_its_id_is_skipped_rather_than_guessed() {
    let xml = "<a:MapItem><a:Name>Nameless</a:Name></a:MapItem>";
    assert!(parse_catalogue(xml).is_empty());
}

#[test]
fn only_zero_k_is_fetchable() {
    assert!(host_allowed("http://zero-k.info/ContentService.svc"));
    assert!(!host_allowed("http://zero-k.info.example.com/x"));
    assert!(!host_allowed("http://zero-k.info@evil.example/x"));
    assert!(!host_allowed("file:///etc/passwd"));
}

// ------------------------------------------------------- exact values and edge cases

#[test]
fn entities_in_a_name_are_read_as_the_characters_they_stand_for() {
    let xml = "<a:MapItem><a:Name>Rock &amp; Roll &lt;3&gt; &quot;x&quot; &apos;y&apos;</a:Name>\
<a:ResourceID> 12 </a:ResourceID><a:Width>64</a:Width><a:Height>65</a:Height></a:MapItem>";
    let maps = parse_catalogue(xml);
    assert_eq!(maps.len(), 1);
    assert_eq!(maps[0].name, "Rock & Roll <3> \"x\" 'y'");
    assert_eq!(maps[0].resource_id, 12);
    assert_eq!(maps[0].width_elmos, Some(64 * 512));
    assert_eq!(maps[0].height_elmos, None);
}

#[test]
fn a_zero_id_or_an_empty_name_is_skipped() {
    let xml = "<a:MapItem><a:Name>Zero</a:Name><a:ResourceID>0</a:ResourceID></a:MapItem>\
<a:MapItem><a:Name></a:Name><a:ResourceID>5</a:ResourceID></a:MapItem>\
<a:MapItem><a:Name>Kept</a:Name><a:ResourceID>6</a:ResourceID></a:MapItem>";
    let maps = parse_catalogue(xml);
    assert_eq!(maps.len(), 1);
    assert_eq!(maps[0].name, "Kept");
}

#[test]
fn an_unclosed_item_ends_the_catalogue() {
    let xml = "<a:MapItem><a:Name>A</a:Name><a:ResourceID>1</a:ResourceID></a:MapItem>\
<a:MapItem><a:Name>B</a:Name><a:ResourceID>2</a:ResourceID>";
    let maps = parse_catalogue(xml);
    assert_eq!(maps.len(), 1);
    assert_eq!(maps[0].name, "A");
}

#[test]
fn sizes_at_the_edges() {
    assert_eq!(side_elmos(Some(" 1 ")), Some(512));
    assert_eq!(side_elmos(Some("64")), Some(32768));
    assert_eq!(side_elmos(Some("65")), None);
    assert_eq!(side_elmos(Some("+2")), Some(1024));
    assert_eq!(side_elmos(Some("-2")), None);
    assert_eq!(side_elmos(None), None);
}

#[test]
fn subdomains_ports_and_https_are_allowed_others_are_not() {
    assert!(host_allowed("https://zero-k.info"));
    assert!(host_allowed("http://www.zero-k.info:8080/x?y#z"));
    assert!(host_allowed("http://user@ZERO-K.INFO/"));
    assert!(!host_allowed("http://notzero-k.info/"));
    assert!(!host_allowed("ftp://zero-k.info/"));
    assert!(!host_allowed("http://evil.example/?zero-k.info"));
}
