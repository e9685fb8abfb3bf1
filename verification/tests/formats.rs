use speedtest_rs::audit::{
    audit_write, clock_timestamp, csv_entry, epoch_timestamp, is_csv_path, json_audit_document, now_iso,
    AuditRecord,
};
use speedtest_rs::text::format_hundredths;

fn record(ts: &str, avg: u64, dl: u64) -> AuditRecord {
    AuditRecord {
        timestamp: ts.to_string(),
        server_sponsor: "Claro".to_string(),
        server_name: "São Paulo".to_string(),
        ping_avg_ms_hundredths: avg,
        ping_min_ms_hundredths: 3870,
        ping_max_ms_hundredths: 4920,
        jitter_ms_hundredths: 340,
        dl_mbps_hundredths: dl,
        ul_mbps_hundredths: 1850,
    }
}

const OBJECT_1: &str = "{\n  \"timestamp\": \"epoch+20229d 23:15:42Z\",\n  \"server_sponsor\": \"Claro\",\n  \"server_name\": \"São Paulo\",\n  \"ping_avg_ms\": 42.10,\n  \"ping_min_ms\": 38.70,\n  \"ping_max_ms\": 49.20,\n  \"jitter_ms\": 3.40,\n  \"dl_mbps\": 35.20,\n  \"ul_mbps\": 18.50\n}";

#[test]
fn hundredths_are_written_with_two_decimals() {
    assert_eq!(format_hundredths(3520), "35.20");
    assert_eq!(format_hundredths(5), "0.05");
    assert_eq!(format_hundredths(0), "0.00");
    assert_eq!(format_hundredths(100), "1.00");
    assert_eq!(format_hundredths(123456), "1234.56");
    assert_eq!(format_hundredths(u64::MAX), "184467440737095516.15");
}

#[test]
fn epoch_timestamp_matches_documented_example() {
    let secs = 20229 * 86400 + 23 * 3600 + 15 * 60 + 42;
    assert_eq!(epoch_timestamp(secs), "epoch+20229d 23:15:42Z");
}

#[test]
fn epoch_timestamp_pads_fields() {
    assert_eq!(epoch_timestamp(0), "epoch+0d 00:00:00Z");
    assert_eq!(epoch_timestamp(86400 + 3600 + 61), "epoch+1d 01:01:01Z");
    assert_eq!(epoch_timestamp(86399), "epoch+0d 23:59:59Z");
}

#[test]
fn now_iso_has_the_epoch_form() {
    let t = now_iso();
    assert!(t.starts_with("epoch+"));
    assert!(t.ends_with("Z"));
    let rest = &t["epoch+".len()..];
    let (days, clock) = rest.split_once("d ").unwrap();
    assert!(days.parse::<u64>().unwrap() > 19000);
    assert_eq!(clock.len(), 9);
    assert_eq!(&clock[2..3], ":");
    assert_eq!(&clock[5..6], ":");
}

#[test]
fn csv_entry_with_and_without_header() {
    let r = record("epoch+20229d 23:15:42Z", 4210, 3520);
    let row = "epoch+20229d 23:15:42Z,Claro,São Paulo,42.10,38.70,49.20,3.40,35.20,18.50\n";
    assert_eq!(csv_entry(&r, true), row);
    let header = "timestamp,server_sponsor,server_name,ping_avg_ms,ping_min_ms,ping_max_ms,jitter_ms,dl_mbps,ul_mbps\n";
    assert_eq!(csv_entry(&r, false), format!("{}{}", header, row));
}

#[test]
fn csv_two_saves_write_header_once() {
    let r1 = record("t1", 4210, 3520);
    let r2 = record("t2", 4180, 3480);
    let file = format!("{}{}", csv_entry(&r1, false), csv_entry(&r2, true));
    let lines: Vec<&str> = file.lines().collect();
    assert_eq!(lines.len(), 3);
    assert!(lines[0].starts_with("timestamp,"));
    assert!(lines[1].starts_with("t1,"));
    assert!(lines[2].starts_with("t2,Claro,São Paulo,41.80,"));
}

#[test]
fn json_document_from_unreadable_file() {
    let r = record("epoch+20229d 23:15:42Z", 4210, 3520);
    assert_eq!(json_audit_document("[]", &r), format!("[\n{}\n]\n", OBJECT_1));
}

#[test]
fn json_document_from_empty_file() {
    let r = record("epoch+20229d 23:15:42Z", 4210, 3520);
    assert_eq!(json_audit_document("", &r), format!("[{}\n]\n", OBJECT_1));
    assert_eq!(json_audit_document(" \n\t ", &r), format!("[{}\n]\n", OBJECT_1));
}

#[test]
fn json_document_appends_to_existing_array() {
    let r1 = record("epoch+20229d 23:15:42Z", 4210, 3520);
    let r2 = record("t2", 4180, 3480);
    let d1 = json_audit_document("[]", &r1);
    let d2 = json_audit_document(&d1, &r2);
    let expected_tail = json_audit_document("[]", &r2);
    assert_eq!(d2, format!("[\n{},\n{}", OBJECT_1, &expected_tail[2..]));
    // the append law on concrete values: d2 is d1 without "\n]\n", then ",\n" and the entry
    assert_eq!(&d2[..d1.len() - 3], &d1[..d1.len() - 3]);
    assert!(d2.ends_with("}\n]\n"));
    assert_eq!(d2.matches("\"timestamp\"").count(), 2);
}

#[test]
fn json_document_tolerates_trailing_comma_and_spaces() {
    let r = record("x", 1, 2);
    let existing = "  [\n{\"a\": 1},\n]  \n";
    let d = json_audit_document(existing, &r);
    // the comma is only dropped where it stands right before the `]`
    assert!(d.starts_with("[\n{\"a\": 1},,\n{\n  \"timestamp\": \"x\""));
    assert!(d.ends_with("\n}\n]\n"));
    let d = json_audit_document("[{\"a\":1},]", &r);
    assert!(d.starts_with("[{\"a\":1},\n{\n  \"timestamp\": \"x\""));
}

#[test]
fn csv_paths_by_extension() {
    assert!(is_csv_path("relatorio.csv"));
    assert!(is_csv_path("RELATORIO.CsV"));
    assert!(is_csv_path("csv"));
    assert!(!is_csv_path("auditoria.json"));
    assert!(!is_csv_path("a.csv.bak"));
    assert!(!is_csv_path("dir.d/file"));
    assert!(!is_csv_path("file.csvx"));
    assert!(!is_csv_path(""));
}

#[test]
fn audit_write_modes() {
    let r = record("t", 1, 2);
    let w = audit_write("x.csv", false, "", &r);
    assert!(w.append);
    assert!(w.contents.starts_with("timestamp,"));
    let w = audit_write("x.json", true, "[]", &r);
    assert!(!w.append);
    assert!(w.contents.starts_with("[\n{\n"));
}

fn record_with(sponsor: &str, name: &str) -> AuditRecord {
    AuditRecord {
        timestamp: "t".to_string(),
        server_sponsor: sponsor.to_string(),
        server_name: name.to_string(),
        ping_avg_ms_hundredths: 0,
        ping_min_ms_hundredths: 0,
        ping_max_ms_hundredths: 0,
        jitter_ms_hundredths: 0,
        dl_mbps_hundredths: 0,
        ul_mbps_hundredths: 0,
    }
}

#[test]
fn json_text_fields_are_escaped() {
    let r = record_with("A\"B\\C", "line\nbreak\u{1}");
    let d = json_audit_document("[]", &r);
    assert!(d.contains("\"server_sponsor\": \"A\\\"B\\\\C\""));
    assert!(d.contains("\"server_name\": \"line\\u000abreak\\u0001\""));
    let v: serde_json::Value = serde_json::from_str(&d).unwrap();
    let arr = v.as_array().unwrap();
    assert_eq!(arr.len(), 1);
    assert_eq!(arr[0]["server_sponsor"], "A\"B\\C");
    assert_eq!(arr[0]["server_name"], "line\nbreak\u{1}");
    assert_eq!(arr[0]["ping_avg_ms"].as_f64(), Some(0.0));
}

#[test]
fn json_append_keeps_any_existing_array() {
    let r = record_with("Claro", "n");
    let existing = " \n[{\"a\": 1}, {\"b\": [2, 3], \"c\": {}}]\n\n";
    let d = json_audit_document(existing, &r);
    assert!(d.starts_with("[{\"a\": 1}, {\"b\": [2, 3], \"c\": {}},\n{\n"));
    let v: serde_json::Value = serde_json::from_str(&d).unwrap();
    let arr = v.as_array().unwrap();
    assert_eq!(arr.len(), 3);
    assert_eq!(arr[0]["a"], 1);
    assert_eq!(arr[1]["b"][1], 3);
    assert_eq!(arr[2]["server_sponsor"], "Claro");
    let d = json_audit_document("  [ \n ]\t", &r);
    let v: serde_json::Value = serde_json::from_str(&d).unwrap();
    assert_eq!(v.as_array().unwrap().len(), 1);
}

#[test]
fn csv_text_fields_are_quoted_when_needed() {
    let r = record_with("Claro, S.A.", "say \"hi\"");
    let row = csv_entry(&r, true);
    assert_eq!(row, "t,\"Claro, S.A.\",\"say \"\"hi\"\"\",0.00,0.00,0.00,0.00,0.00,0.00\n");
    let r = record_with("line\nbreak", "plain");
    assert_eq!(csv_entry(&r, true), "t,\"line\nbreak\",plain,0.00,0.00,0.00,0.00,0.00,0.00\n");
}

#[test]
fn clock_before_epoch_counts_as_zero() {
    assert_eq!(clock_timestamp(None), "epoch+0d 00:00:00Z");
    assert_eq!(clock_timestamp(Some(0)), "epoch+0d 00:00:00Z");
    assert_eq!(clock_timestamp(Some(86400 * 3 + 7)), "epoch+3d 00:00:07Z");
}
