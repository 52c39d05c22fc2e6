use parser::{parse_musicxml, Event};

const MULTIPART: &str = r#"<?xml version="1.0" encoding="UTF-8"?>
<score-partwise version="3.1">
  <part-list>
    <score-part id="P1"><part-name>Violin I</part-name></score-part>
    <score-part id="P2"><part-name>Violin II</part-name></score-part>
    <score-part id="P3"><part-name>Cello</part-name></score-part>
  </part-list>
  <part id="P1"><measure number="1"/><measure number="2"/></part>
  <part id="P2"><measure number="1"/><measure number="2"/></part>
  <part id="P3"><measure number="1"/><measure number="2"/></part>
</score-partwise>"#;

fn number(n: Option<u32>) -> serde_yaml::Value {
    match n {
        Some(n) => serde_yaml::Value::from(n),
        None => serde_yaml::Value::Null,
    }
}

fn render(events: &[Event]) -> Result<String, serde_yaml::Error> {
    let mut list = Vec::new();
    for e in events {
        let mut fields = serde_yaml::Mapping::new();
        fields.insert("id".into(), e.id.clone().into());
        fields.insert("bar".into(), number(e.bar));
        fields.insert("beat".into(), number(e.beat));
        fields.insert("time_ms".into(), number(e.time_ms));
        let names: Vec<serde_yaml::Value> = e.instruments.iter().map(|i| i.clone().into()).collect();
        fields.insert("instruments".into(), serde_yaml::Value::Sequence(names));
        list.push(serde_yaml::Value::Mapping(fields));
    }
    serde_yaml::to_string(&list)
}

#[test]
fn yaml_includes_part_names() {
    let events = parse_musicxml(MULTIPART).expect("parse ok");
    let yaml = render(&events).expect("yaml ok");
    assert!(yaml.contains("Violin I"));
    assert!(yaml.contains("Violin II"));
    assert!(yaml.contains("Cello"));
}

#[test]
fn rendering_names_every_field() {
    let events = parse_musicxml(MULTIPART).expect("parse ok");
    assert_eq!(events.len(), 6);
    let yaml = render(&events[..1]).expect("yaml ok");
    assert!(yaml.contains("id: M1"));
    assert!(yaml.contains("bar: 1"));
    assert!(yaml.contains("beat: 1"));
    assert!(yaml.contains("time_ms: null"));
    assert!(yaml.contains("instruments:"));
    assert!(yaml.contains("- Violin I"));
}
