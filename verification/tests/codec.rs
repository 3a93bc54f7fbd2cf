use transcript::transcribe::Timing;
use transcript::vendor::repair_line;

fn t(start: u32, end: u32, text: &str) -> Timing {
    Timing::new(start, end, text.to_string()).unwrap()
}

fn samples() -> Vec<Timing> {
    vec![
        t(0, 200, " Hello"),
        t(200, 900, "world"),
        t(900, 1000, " again, \"quoted\"."),
        t(1000, 1000, ""),
        t(2000, u32::MAX, " two\nlines "),
    ]
}

fn to_csv(events: &[Timing]) -> Vec<u8> {
    let mut w = csv::Writer::from_writer(Vec::new());
    w.write_record(["start", "end", "text"]).unwrap();
    for e in events {
        w.write_record([e.start().to_string(), e.end().to_string(), e.text().to_string()]).unwrap();
    }
    w.into_inner().unwrap()
}

fn from_csv(bytes: &[u8]) -> Vec<Timing> {
    let mut r = csv::Reader::from_reader(bytes);
    r.records()
        .map(|rec| {
            let rec = rec.unwrap();
            Timing::new(rec[0].parse().unwrap(), rec[1].parse().unwrap(), rec[2].to_string())
                .unwrap()
        })
        .collect()
}

fn to_json(events: &[Timing]) -> String {
    let array: Vec<serde_json::Value> = events
        .iter()
        .map(|e| {
            let mut o = serde_json::Map::new();
            o.insert("start".to_string(), serde_json::Value::from(e.start()));
            o.insert("end".to_string(), serde_json::Value::from(e.end()));
            o.insert("text".to_string(), serde_json::Value::from(e.text()));
            serde_json::Value::Object(o)
        })
        .collect();
    serde_json::Value::Array(array).to_string()
}

fn from_json(text: &str) -> Vec<Timing> {
    let value: serde_json::Value = serde_json::from_str(text).unwrap();
    value
        .as_array()
        .unwrap()
        .iter()
        .map(|o| {
            Timing::new(
                o["start"].as_u64().unwrap() as u32,
                o["end"].as_u64().unwrap() as u32,
                o["text"].as_str().unwrap().to_string(),
            )
            .unwrap()
        })
        .collect()
}

#[test]
fn events_survive_csv() {
    let events = samples();
    let once = from_csv(&to_csv(&events));
    assert_eq!(once, events);
    assert_eq!(from_csv(&to_csv(&once)), once);
}

#[test]
fn events_survive_json() {
    let events = samples();
    let once = from_json(&to_json(&events));
    assert_eq!(once, events);
    assert_eq!(from_json(&to_json(&once)), once);
}

#[test]
fn repaired_lines_read_as_csv() {
    let raw = "start,end,text\n0,200,\" Hello\"\n200,900,\"world\"\n900,1000,\" again, it said\"\n";
    let repaired: String = raw.split_inclusive('\n').map(repair_line).collect();
    assert_eq!(
        repaired,
        "start,end,text\n0,200, Hello\n200,900,world\n900,1000,\" again, it said\"\n"
    );
    assert_eq!(
        from_csv(repaired.as_bytes()),
        vec![t(0, 200, " Hello"), t(200, 900, "world"), t(900, 1000, " again, it said")]
    );
}
