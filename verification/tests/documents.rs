use parser::{parse_musicxml, Event};

fn instruments(events: &[Event]) -> Vec<String> {
    events.iter().map(|e| e.instruments.join("+")).collect()
}

fn ids(events: &[Event]) -> Vec<String> {
    events.iter().map(|e| e.id.clone()).collect()
}

#[test]
fn document_without_measures_has_no_events() {
    let no_parts = parse_musicxml("<score-partwise/>").unwrap();
    assert!(no_parts.is_empty());
    let empty_parts = parse_musicxml(
        r#"<score-partwise>
             <part-list><score-part id="part1"><part-name>Oboe</part-name></score-part></part-list>
             <part id="part1"/><part id="part2"><attributes/></part>
           </score-partwise>"#,
    )
    .unwrap();
    assert!(empty_parts.is_empty());
}

#[test]
fn measures_are_numbered_through_the_score() {
    let xml = r#"<score-partwise>
        <part-list>
          <score-part id="part1"><part-name>Flute</part-name></score-part>
          <score-part id="part2"><part-name>Harp</part-name></score-part>
        </part-list>
        <part id="part1"><measure number="1"/><measure number="2"/></part>
        <part id="part2"><measure number="1"/><measure number="2"/><measure number="3"/></part>
    </score-partwise>"#;
    let events = parse_musicxml(xml).unwrap();
    assert_eq!(ids(&events), vec!["M1", "M2", "M3", "M4", "M5"]);
    let bars: Vec<Option<u32>> = events.iter().map(|e| e.bar).collect();
    assert_eq!(bars, vec![Some(1), Some(2), Some(3), Some(4), Some(5)]);
    assert_eq!(instruments(&events), vec!["Flute", "Flute", "Harp", "Harp", "Harp"]);
    for e in &events {
        assert_eq!(e.beat, Some(1));
        assert_eq!(e.time_ms, None);
        assert_eq!(e.instruments.len(), 1);
    }
}

#[test]
fn one_part_one_measure() {
    let events = parse_musicxml(r#"<score-partwise><part id="part1"><measure/></part></score-partwise>"#)
        .unwrap();
    assert_eq!(
        events,
        vec![Event {
            id: "M1".to_string(),
            bar: Some(1),
            beat: Some(1),
            time_ms: None,
            instruments: vec!["Unknown".to_string()],
        }]
    );
}

#[test]
fn tenth_measure_has_two_digits() {
    let mut xml = String::from(r#"<score-partwise><part id="part1">"#);
    for _ in 0..12 {
        xml.push_str("<measure/>");
    }
    xml.push_str("</part></score-partwise>");
    let events = parse_musicxml(&xml).unwrap();
    assert_eq!(events.len(), 12);
    assert_eq!(events[8].id, "M9");
    assert_eq!(events[9].id, "M10");
    assert_eq!(events[9].bar, Some(10));
    assert_eq!(events[11].id, "M12");
}

#[test]
fn text_that_is_not_well_formed_is_refused() {
    for xml in [
        "<score-partwise><part><measure></score-partwise>",
        "<score-partwise>",
        "<a></b>",
        "",
        "no markup at all",
        "<a><b attr=></b></a>",
    ] {
        let outcome = parse_musicxml(xml);
        assert!(outcome.is_err(), "{xml}");
        assert!(!outcome.unwrap_err().message.is_empty());
    }
}

#[test]
fn failure_carries_the_message_of_the_parser() {
    let xml = "<score-partwise><part><measure></score-partwise>";
    let expected = roxmltree::Document::parse(xml).unwrap_err().to_string();
    assert_eq!(parse_musicxml(xml).unwrap_err().message, expected);
}

#[test]
fn unrelated_elements_change_nothing() {
    let plain = r#"<score-partwise>
        <part-list><score-part id="part1"><part-name>Viola</part-name></score-part></part-list>
        <part id="part1"><measure number="1"/><measure number="2"/></part>
    </score-partwise>"#;
    let busy = r#"<score-partwise>
        <work><work-title>Suite</work-title></work>
        <part-list><score-part id="part1"><part-name>Viola</part-name><midi-instrument/></score-part></part-list>
        <sound tempo="120"/>
        <part id="part1">
          <direction><direction-type><rehearsal>Intro</rehearsal></direction-type></direction>
          <measure number="1"><sound tempo="96"/><note><pitch/></note></measure>
          <!-- a remark -->
          <measure number="2"/>
          <sound tempo="60"/>
        </part>
        <direction><direction-type><words>fine</words></direction-type></direction>
    </score-partwise>"#;
    let expected = parse_musicxml(plain).unwrap();
    assert_eq!(expected.len(), 2);
    assert_eq!(parse_musicxml(busy).unwrap(), expected);
}

#[test]
fn part_without_declaration_plays_unknown() {
    let xml = r#"<score-partwise>
        <part-list><score-part id="part1"><part-name>Tuba</part-name></score-part></part-list>
        <part id="part9"><measure/><measure/></part>
        <part id="part1"><measure/></part>
    </score-partwise>"#;
    let events = parse_musicxml(xml).unwrap();
    assert_eq!(instruments(&events), vec!["Unknown", "Unknown", "Tuba"]);
}

#[test]
fn self_closing_and_open_close_measures_are_alike() {
    let closed = parse_musicxml(r#"<s><part id="part1"><measure number="1"/></part></s>"#).unwrap();
    let open =
        parse_musicxml(r#"<s><part id="part1"><measure number="1"></measure></part></s>"#).unwrap();
    let full = parse_musicxml(
        r#"<s><part id="part1"><measure number="1"><note><rest/></note>text</measure></part></s>"#,
    )
    .unwrap();
    assert_eq!(closed.len(), 1);
    assert_eq!(open, closed);
    assert_eq!(full, closed);
}

#[test]
fn part_may_stand_before_its_declaration() {
    let xml = r#"<score-partwise>
        <part id="part1"><measure/></part>
        <part-list><score-part id="part1"><part-name>Horn</part-name></score-part></part-list>
    </score-partwise>"#;
    assert_eq!(instruments(&parse_musicxml(xml).unwrap()), vec!["Horn"]);
}

#[test]
fn declaration_need_not_stand_in_a_part_list() {
    let xml = r#"<score-partwise>
        <identification><score-part id="part1"><part-name>Lute</part-name></score-part></identification>
        <part id="part1"><measure/></part>
    </score-partwise>"#;
    assert_eq!(instruments(&parse_musicxml(xml).unwrap()), vec!["Lute"]);
}

#[test]
fn later_declaration_overrides_earlier() {
    let xml = r#"<score-partwise>
        <part-list>
          <score-part id="part1"><part-name>First</part-name></score-part>
          <score-part id="part1"><part-name>Second</part-name></score-part>
          <score-part id="part1"/>
        </part-list>
        <part id="part1"><measure/></part>
    </score-partwise>"#;
    assert_eq!(instruments(&parse_musicxml(xml).unwrap()), vec!["Second"]);
}

#[test]
fn declaration_without_identifier_or_name_is_passed_over() {
    let xml = r#"<score-partwise>
        <part-list>
          <score-part><part-name>Nobody</part-name></score-part>
          <score-part id="part1"/>
          <score-part id="part2"><part-name/></score-part>
          <score-part id="part3"><part-name></part-name></score-part>
          <score-part id="part4"><part-abbreviation>Vc.</part-abbreviation></score-part>
          <score-part id="part5"><group><part-name>Too deep</part-name></group></score-part>
          <score-part id="part6"><part-name><b/>After an element</part-name></score-part>
          <score-part id="part7"><part-name/><part-name>Second of two</part-name></score-part>
        </part-list>
        <part><measure/></part>
        <part id="part1"><measure/></part>
        <part id="part2"><measure/></part>
        <part id="part3"><measure/></part>
        <part id="part4"><measure/></part>
        <part id="part5"><measure/></part>
        <part id="part6"><measure/></part>
        <part id="part7"><measure/></part>
    </score-partwise>"#;
    let events = parse_musicxml(xml).unwrap();
    assert_eq!(events.len(), 8);
    for e in &events {
        assert_eq!(e.instruments, vec!["Unknown"]);
    }
}

#[test]
fn part_without_identifier_takes_the_empty_one() {
    let xml = r#"<score-partwise>
        <part-list><score-part id=""><part-name>Anonymous</part-name></score-part></part-list>
        <part><measure/></part>
        <part id=""><measure/></part>
    </score-partwise>"#;
    assert_eq!(instruments(&parse_musicxml(xml).unwrap()), vec!["Anonymous", "Anonymous"]);
}

#[test]
fn only_measures_directly_under_a_part_count() {
    let xml = r#"<score-partwise>
        <measure number="0"/>
        <part id="part1">
          <measure number="1"><measure number="1a"/></measure>
          <group><measure number="2"/></group>
        </part>
    </score-partwise>"#;
    assert_eq!(parse_musicxml(xml).unwrap().len(), 1);
}

#[test]
fn part_inside_a_part_is_not_walked() {
    let xml = r#"<score-partwise><part id="P1"><part id="P2"><measure number="1"/></part></part></score-partwise>"#;
    assert_eq!(parse_musicxml(xml).unwrap().len(), 0);
}

#[test]
fn only_top_level_parts_are_walked() {
    let xml = r#"<score-partwise>
        <part-list>
          <score-part id="A"><part-name>Outer</part-name></score-part>
          <score-part id="B"><part-name>Inner</part-name></score-part>
          <score-part id="C"><part-name>Grouped</part-name></score-part>
          <score-part id="D"><part-name>Last</part-name></score-part>
        </part-list>
        <part id="A">
          <part id="B"><measure/><measure/></part>
          <measure/>
          <measure><part id="B"><measure/></part></measure>
        </part>
        <group><part id="C"><measure/></part></group>
        <part id="D"><measure/></part>
    </score-partwise>"#;
    let events = parse_musicxml(xml).unwrap();
    assert_eq!(instruments(&events), vec!["Outer", "Outer", "Last"]);
    assert_eq!(ids(&events), vec!["M1", "M2", "M3"]);
}

#[test]
fn root_element_is_not_a_part_of_the_score() {
    let events = parse_musicxml(r#"<part id="A"><measure/><part id="B"><measure/></part></part>"#)
        .unwrap();
    assert_eq!(instruments(&events), vec!["Unknown"]);
    assert!(parse_musicxml(r#"<part id="A"><measure/></part>"#).unwrap().is_empty());
}

#[test]
fn parts_come_in_document_order() {
    let xml = r#"<!-- a remark before the score -->
    <score-partwise>
        <part id="late"><measure/></part>
        <part-list>
          <score-part id="early"><part-name>Second</part-name></score-part>
          <score-part id="late"><part-name>First</part-name></score-part>
        </part-list>
        <part id="early"><measure/><measure/></part>
    </score-partwise>
    <!-- and one after it -->"#;
    let events = parse_musicxml(xml).unwrap();
    assert_eq!(instruments(&events), vec!["First", "Second", "Second"]);
    assert_eq!(ids(&events), vec!["M1", "M2", "M3"]);
}

#[test]
fn document_type_declaration_is_refused() {
    let xml = r#"<!DOCTYPE score-partwise PUBLIC "-//Recordare//DTD MusicXML 3.1 Partwise//EN" "http://www.musicxml.org/dtds/partwise.dtd">
<score-partwise><part id="A"><measure/></part></score-partwise>"#;
    let expected = roxmltree::Document::parse(xml).unwrap_err().to_string();
    assert_eq!(parse_musicxml(xml).unwrap_err().message, expected);
}

#[test]
fn names_are_matched_without_their_prefix() {
    let xml = r#"<m:score-partwise xmlns:m="urn:music">
        <m:part-list><m:score-part id="part1"><m:part-name>Sitar</m:part-name></m:score-part></m:part-list>
        <m:part id="part1"><m:measure/></m:part>
    </m:score-partwise>"#;
    assert_eq!(instruments(&parse_musicxml(xml).unwrap()), vec!["Sitar"]);
}

#[test]
fn name_keeps_its_spaces_and_resolves_entities() {
    let xml = r#"<score-partwise>
        <part-list><score-part id="part1"><part-name> Drums &amp; Bass </part-name></score-part></part-list>
        <part id="part1"><measure/></part>
    </score-partwise>"#;
    assert_eq!(instruments(&parse_musicxml(xml).unwrap()), vec![" Drums & Bass "]);
}

#[test]
fn two_readings_of_one_text_agree() {
    let xml = r#"<score-partwise><part id="part1"><measure/><measure/></part></score-partwise>"#;
    assert_eq!(parse_musicxml(xml).unwrap(), parse_musicxml(xml).unwrap());
}
