use shakedown::monitor::iofan::{
    fans_from_json, fans_from_sensor_chips, parse_lmsensors_json, SensorsError, is_fan_input_name, is_temp_input_name, pwm_file_name, pwm_to_duty,
    FieldValue, SensorChip, SensorEntry, SensorField, SensorValue,
};

fn num(x: f64) -> FieldValue {
    FieldValue::Number(x.to_bits())
}

fn obj(key: &str, fields: Vec<(&str, FieldValue)>) -> SensorEntry {
    SensorEntry {
        key: key.to_string(),
        value: SensorValue::Object(
            fields.into_iter().map(|(k, v)| SensorField { key: k.to_string(), value: v }).collect(),
        ),
    }
}

fn other(key: &str) -> SensorEntry {
    SensorEntry { key: key.to_string(), value: SensorValue::Leaf(FieldValue::Text("adapter".to_string())) }
}

fn chip(name: &str, entries: Vec<SensorEntry>) -> SensorChip {
    SensorChip { name: name.to_string(), entries: Some(entries) }
}

/// The `sensors -j` fixture: an ACPI chip with a CPU fan and pwm1, and a
/// coretemp chip, keys in the order serde_json's map yields them.
fn fixture() -> Vec<SensorChip> {
    vec![
        chip(
            "acpi-virtual-0",
            vec![
                other("Adapter"),
                obj("CPU fan", vec![("fan1_input", num(0.0))]),
                obj("CPU temp", vec![("temp1_input", num(43.0))]),
                obj("pwm1", vec![("pwm1", num(0.0))]),
            ],
        ),
        chip(
            "coretemp-isa-0000",
            vec![other("Adapter"), obj("Core 0", vec![("temp1_input", num(100.0))])],
        ),
    ]
}

#[test]
fn test_parse_cpu_fan_merges_pwm() {
    let fans = fans_from_sensor_chips(&fixture());

    // Find CPU fan
    let cpu = fans.iter().find(|f| f.label.as_deref() == Some("CPU fan") || f.id.contains("CPU fan"));
    assert!(cpu.is_some(), "CPU fan should be present");
    let cpu = cpu.unwrap();
    assert_eq!(cpu.rpm.map(|b| f64::from_bits(b) as u32), Some(0));
    assert_eq!(cpu.duty.map(|b| f64::from_bits(b).round() as u8), Some(0));
    assert_eq!(cpu.temp.map(|b| f64::from_bits(b) as f32), Some(43.0));

    // Ensure coretemp doesn't appear as a fan
    assert!(fans.iter().all(|f| !f.id.contains("coretemp") && f.label.as_deref() != Some("Core 0")));

    // Ensure pwm1 does not exist as a separate entry
    assert!(fans.iter().all(|f| f.label.as_deref() != Some("pwm1") && !f.id.contains("pwm1")));
}

#[test]
fn fixture_gives_exactly_the_cpu_fan() {
    let fans = fans_from_sensor_chips(&fixture());
    assert_eq!(fans.len(), 1);
    assert_eq!(fans[0].id, "CPU fan");
    assert_eq!(fans[0].label.as_deref(), Some("CPU fan"));
    assert_eq!(fans[0].rpm, Some(0f64.to_bits()));
    assert_eq!(fans[0].duty, Some(0f64.to_bits()));
    assert_eq!(fans[0].temp, Some(43f64.to_bits()));
}

#[test]
fn fans_sorted_and_merged_by_name() {
    let chips = vec![
        chip(
            "it87-isa-0a40",
            vec![
                obj("fan2", vec![("fan2_input", num(900.0))]),
                obj("Fan1", vec![("fan1_input", num(1200.0))]),
                obj("temp1", vec![("temp1_input", num(35.0))]),
            ],
        ),
        chip(
            "other-0",
            vec![
                // Same name as "fan2" once lowercased: merged into it.
                obj("FAN2", vec![("pwm", num(128.0))]),
                SensorEntry { key: "pwm3".to_string(), value: SensorValue::Leaf(FieldValue::Number(77f64.to_bits())) },
            ],
        ),
    ];
    let fans = fans_from_sensor_chips(&chips);
    let names: Vec<String> = fans
        .iter()
        .map(|f| f.label.clone().unwrap_or_else(|| f.id.clone()).to_lowercase())
        .collect();
    let mut sorted = names.clone();
    sorted.sort();
    assert_eq!(names, sorted);
    let mut dedup = names.clone();
    dedup.dedup();
    assert_eq!(dedup.len(), names.len());
    let mut ids: Vec<String> = fans.iter().map(|f| f.id.clone()).collect();
    ids.sort();
    ids.dedup();
    assert_eq!(ids.len(), fans.len());
    assert!(fans.iter().all(|f| f.rpm.is_some() || f.duty.is_some()));
    let f1 = fans.iter().find(|f| f.id == "Fan1").expect("Fan1");
    assert_eq!(f1.rpm, Some(1200f64.to_bits()));
}

#[test]
fn empty_tree_has_no_fans() {
    assert!(fans_from_sensor_chips(&vec![]).is_empty());
    let chips = vec![SensorChip { name: "x".to_string(), entries: None }];
    assert!(fans_from_sensor_chips(&chips).is_empty());
}

#[test]
fn hwmon_file_names() {
    assert!(is_fan_input_name("fan1_input"));
    assert!(!is_fan_input_name("fan1_label"));
    assert!(!is_fan_input_name("pwm1"));
    assert!(is_temp_input_name("temp3_input"));
    assert!(!is_temp_input_name("fan3_input"));
    assert_eq!(pwm_file_name("fan1_input"), "fan1_pwm");
    assert_eq!(pwm_file_name("fan_input_input"), "fan_pwm_input");
    assert_eq!(pwm_file_name("fan1"), "fan1");
}

#[test]
fn pwm_duty_scale() {
    assert_eq!(pwm_to_duty(0), 0);
    assert_eq!(pwm_to_duty(100), 100);
    assert_eq!(pwm_to_duty(101), 40);
    assert_eq!(pwm_to_duty(128), 50);
    assert_eq!(pwm_to_duty(255), 100);
    assert_eq!(pwm_to_duty(256), 100);
    // A duty is a percentage: larger PWM values are held at 100.
    assert_eq!(pwm_to_duty(257), 100);
    assert_eq!(pwm_to_duty(1000), 100);
    assert_eq!(pwm_to_duty(u32::MAX), 100);
    for p in 101u32..2000 {
        let expected = (((p as f32) / 255.0 * 100.0).round() as u8).min(100);
        assert_eq!(pwm_to_duty(p), expected, "pwm {}", p);
        assert!(pwm_to_duty(p) <= 100);
    }
}

const FIXTURE_JSON: &str = r#"
{
  "acpi-virtual-0": {
    "Adapter": "ACPI interface",
    "CPU fan": { "fan1_input": 0.0 },
    "CPU temp": { "temp1_input": 43.0 },
    "pwm1": { "pwm1": 0.0 }
  },
  "coretemp-isa-0000": {
    "Adapter": "ISA adapter",
    "Core 0": { "temp1_input": 100.0 }
  }
}
"#;

#[test]
fn json_fixture_gives_the_cpu_fan() {
    let fans = parse_lmsensors_json(FIXTURE_JSON).expect("parse");
    assert_eq!(fans.len(), 1);
    assert_eq!(fans[0].id, "CPU fan");
    assert_eq!(fans[0].label.as_deref(), Some("CPU fan"));
    assert_eq!(fans[0].rpm, Some(0f64.to_bits()));
    assert_eq!(fans[0].duty, Some(0f64.to_bits()));
    assert_eq!(fans[0].temp, Some(43f64.to_bits()));
    let same = fans_from_json(FIXTURE_JSON.as_bytes()).expect("parse bytes");
    assert_eq!(same.len(), 1);
    assert_eq!(same[0].temp, Some(43f64.to_bits()));
}

#[test]
fn json_errors_and_odd_shapes() {
    assert!(matches!(parse_lmsensors_json("{ not json"), Err(SensorsError::Json(_))));
    assert!(matches!(fans_from_json(b"\xff\xfe"), Err(SensorsError::Json(_))));
    assert!(parse_lmsensors_json("[1, 2]").expect("array").is_empty());
    assert!(parse_lmsensors_json("{\"chip\": 5}").expect("number chip").is_empty());
    let fans = parse_lmsensors_json("{\"c\": {\"fan3\": 1200, \"label\": \"x\"}}").expect("parse");
    assert_eq!(fans.len(), 1);
    assert_eq!(fans[0].id, "fan3");
    assert_eq!(fans[0].rpm, Some(1200f64.to_bits()));
}
