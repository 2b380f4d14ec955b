//! Fan readings: the names of fan files under hwmon, the PWM duty scale, and
//! the reading and interpretation of the JSON sensor tree that `sensors -j`
//! prints.
//!
//! Readings are carried as the bit patterns of the `f64` numbers they were
//! read as; the caller turns them into RPM, duty and degrees.
use vstd::prelude::*;

use serde_json::from_slice;
use serde_json::Value::{Number, Object, String as JsonText};

use self::SensorValue::Leaf;
use vstd::string::StringSliceAdditionalSpecFns;

use crate::text::{
    push_chars, chars_eq, chars_le, chars_of, contains_chars, contains_seq, find_char,
    find_from, lower_chars, lowercase, remove_all, remove_all_chars, remove_digits_chars,
    replace_char, replace_char_chars, seq_le, lemma_seq_le_total, lemma_seq_le_trans, slice_range, starts_with, starts_with_chars, string_of, trim,
    trim_chars, without_digits,
};

verus! {

// ---------------------------------------------------------------------------
// The sensor tree
// ---------------------------------------------------------------------------

/// A value inside a sensor object.
#[derive(Clone, Debug)]
pub enum FieldValue {
    Number(u64),
    Text(String),
    Other,
}

/// One `"key": value` pair of a sensor object.
#[derive(Clone, Debug)]
pub struct SensorField {
    pub key: String,
    pub value: FieldValue,
}

/// The value of a sensor: an object of fields, or a single value.
#[derive(Clone, Debug)]
pub enum SensorValue {
    Object(Vec<SensorField>),
    Leaf(FieldValue),
}

/// One sensor of a chip.
#[derive(Clone, Debug)]
pub struct SensorEntry {
    pub key: String,
    pub value: SensorValue,
}

/// One chip: its name and, when its value is an object, its sensors.
#[derive(Clone, Debug)]
pub struct SensorChip {
    pub name: String,
    pub entries: Option<Vec<SensorEntry>>,
}

pub enum FieldV {
    Number(u64),
    Text(Seq<char>),
    Other,
}

pub struct FieldModel {
    pub key: Seq<char>,
    pub value: FieldV,
}

pub enum SensorV {
    Object(Seq<FieldModel>),
    Leaf(FieldV),
}

pub struct EntryModel {
    pub key: Seq<char>,
    pub value: SensorV,
}

pub struct ChipModel {
    pub name: Seq<char>,
    pub entries: Option<Seq<EntryModel>>,
}

impl View for FieldValue {
    type V = FieldV;

    open spec fn view(&self) -> FieldV {
        match self {
            FieldValue::Number(n) => FieldV::Number(*n),
            FieldValue::Text(s) => FieldV::Text(s@),
            FieldValue::Other => FieldV::Other,
        }
    }
}

impl View for SensorField {
    type V = FieldModel;

    open spec fn view(&self) -> FieldModel {
        FieldModel { key: self.key@, value: self.value@ }
    }
}

impl View for SensorEntry {
    type V = EntryModel;

    open spec fn view(&self) -> EntryModel {
        EntryModel {
            key: self.key@,
            value: match self.value {
                SensorValue::Object(fields) => SensorV::Object(
                    fields@.map_values(|f: SensorField| f@),
                ),
                SensorValue::Leaf(v) => SensorV::Leaf(v@),
            },
        }
    }
}

impl View for SensorChip {
    type V = ChipModel;

    open spec fn view(&self) -> ChipModel {
        ChipModel {
            name: self.name@,
            entries: match self.entries {
                Some(es) => Some(es@.map_values(|e: SensorEntry| e@)),
                None => None,
            },
        }
    }
}

pub open spec fn chips_view(chips: Seq<SensorChip>) -> Seq<ChipModel> {
    chips.map_values(|c: SensorChip| c@)
}

// ---------------------------------------------------------------------------
// Fans
// ---------------------------------------------------------------------------

/// A fan as found: its id (the key it was filed under), an optional label,
/// and the raw readings for speed, duty and temperature.
#[derive(Clone, Debug)]
pub struct FanReading {
    pub id: String,
    pub label: Option<String>,
    pub rpm: Option<u64>,
    pub duty: Option<u64>,
    pub temp: Option<u64>,
}

pub struct FanModel {
    pub id: Seq<char>,
    pub label: Option<Seq<char>>,
    pub rpm: Option<u64>,
    pub duty: Option<u64>,
    pub temp: Option<u64>,
}

impl View for FanReading {
    type V = FanModel;

    open spec fn view(&self) -> FanModel {
        FanModel {
            id: self.id@,
            label: match self.label {
                Some(l) => Some(l@),
                None => None,
            },
            rpm: self.rpm,
            duty: self.duty,
            temp: self.temp,
        }
    }
}

pub open spec fn fans_view(fans: Seq<FanReading>) -> Seq<FanModel> {
    fans.map_values(|f: FanReading| f@)
}

/// A fan as kept while the tree is read.
struct Rec {
    id: Vec<char>,
    label: Option<Vec<char>>,
    rpm: Option<u64>,
    duty: Option<u64>,
    temp: Option<u64>,
}

impl View for Rec {
    type V = FanModel;

    closed spec fn view(&self) -> FanModel {
        FanModel {
            id: self.id@,
            label: match self.label {
                Some(l) => Some(l@),
                None => None,
            },
            rpm: self.rpm,
            duty: self.duty,
            temp: self.temp,
        }
    }
}

spec fn recs_view(v: Seq<Rec>) -> Seq<FanModel> {
    v.map_values(|r: Rec| r@)
}

fn opt_clone(v: &Option<Vec<char>>) -> (r: Option<Vec<char>>)
    ensures
        match (r, *v) {
            (Some(a), Some(b)) => a@ == b@,
            (None, None) => true,
            _ => false,
        },
{
    match v {
        Some(x) => Some(x.clone()),
        None => None,
    }
}

fn rec_clone(r: &Rec) -> (c: Rec)
    ensures
        c@ == r@,
{
    Rec {
        id: r.id.clone(),
        label: opt_clone(&r.label),
        rpm: r.rpm,
        duty: r.duty,
        temp: r.temp,
    }
}

// ---------------------------------------------------------------------------
// Reading the tree
// ---------------------------------------------------------------------------

/// The value of the first field named `k`.
pub open spec fn field_get(fields: Seq<FieldModel>, k: Seq<char>) -> Option<FieldV>
    decreases fields.len(),
{
    if fields.len() == 0 {
        None
    } else if fields[0].key == k {
        Some(fields[0].value)
    } else {
        field_get(fields.drop_first(), k)
    }
}

/// The reading of a sensor object: its `input` field, else its `value`
/// field.
pub open spec fn input_of(fields: Seq<FieldModel>) -> Option<FieldV> {
    match field_get(fields, "input"@) {
        Some(v) => Some(v),
        None => field_get(fields, "value"@),
    }
}

/// A key that reads like a label: it mentions a fan, temperature, PWM, CPU
/// or GPU and is not `"adapter"`.
pub open spec fn label_like(key: Seq<char>) -> bool {
    let kl = trim(lowercase(key));
    &&& kl != "adapter"@
    &&& (contains_seq(kl, "fan"@) || contains_seq(kl, "temp"@) || contains_seq(kl, "pwm"@)
        || contains_seq(kl, "cpu"@) || contains_seq(kl, "gpu"@))
}

/// The label of a sensor: the text of its `label` field, else its key when
/// the key reads like a label.
pub open spec fn entry_label(e: EntryModel) -> Option<Seq<char>> {
    let explicit = match e.value {
        SensorV::Object(fields) => match field_get(fields, "label"@) {
            Some(FieldV::Text(s)) => Some(s),
            _ => None,
        },
        _ => None,
    };
    match explicit {
        Some(l) => Some(l),
        None => if label_like(e.key) {
            Some(e.key)
        } else {
            None
        },
    }
}

/// The key a sensor is filed under: its label, else `chip:key`.
pub open spec fn entry_map_key(chip: Seq<char>, e: EntryModel) -> Seq<char> {
    match entry_label(e) {
        Some(l) => l,
        None => chip + ":"@ + e.key,
    }
}

/// Whether the lowercase label mentions `w`.
pub open spec fn label_has(label: Option<Seq<char>>, w: Seq<char>) -> bool {
    match label {
        Some(l) => contains_seq(lowercase(l), w),
        None => false,
    }
}

#[derive(Clone, Copy, Debug, PartialEq, Eq, Structural)]
pub enum ReadingKind {
    Speed,
    Duty,
    Temperature,
}

/// Speed before duty before temperature.
pub open spec fn kind_of(fan: bool, pwm: bool, temp: bool) -> Option<ReadingKind> {
    if fan {
        Some(ReadingKind::Speed)
    } else if pwm {
        Some(ReadingKind::Duty)
    } else if temp {
        Some(ReadingKind::Temperature)
    } else {
        None
    }
}

/// What has been gathered so far: the fans, the chip each key came from, and
/// the temperatures still to be attached to a fan.
pub struct Gathered {
    pub fans: Seq<FanModel>,
    pub chips: Seq<(Seq<char>, Seq<char>)>,
    pub temps: Seq<(Seq<char>, u64)>,
}

/// Index of the fan with this id, if any.
pub open spec fn find_fan(fans: Seq<FanModel>, id: Seq<char>) -> Option<int>
    decreases fans.len(),
{
    if fans.len() == 0 {
        None
    } else if fans.last().id == id {
        match find_fan(fans.drop_last(), id) {
            Some(k) => Some(k),
            None => Some(fans.len() - 1),
        }
    } else {
        find_fan(fans.drop_last(), id)
    }
}

pub open spec fn new_fan(id: Seq<char>, label: Option<Seq<char>>) -> FanModel {
    FanModel { id, label, rpm: None, duty: None, temp: None }
}

/// The fan filed under `id`, created with `label` when missing, and given
/// `label` when it has none.
pub open spec fn touch(fans: Seq<FanModel>, id: Seq<char>, label: Option<Seq<char>>) -> Seq<FanModel> {
    match find_fan(fans, id) {
        Some(k) => if fans[k].label is None {
            fans.update(k, FanModel { label, ..fans[k] })
        } else {
            fans
        },
        None => fans.push(new_fan(id, label)),
    }
}

/// Index of `id` after [`touch`].
pub open spec fn touched_index(fans: Seq<FanModel>, id: Seq<char>) -> int {
    match find_fan(fans, id) {
        Some(k) => k,
        None => fans.len() as int,
    }
}

/// Files a reading of `kind` with value `n` under `key`.
pub open spec fn apply_reading(
    g: Gathered,
    key: Seq<char>,
    label: Option<Seq<char>>,
    kind: Option<ReadingKind>,
    n: u64,
) -> Gathered {
    match kind {
        Some(ReadingKind::Speed) => {
            let t = touch(g.fans, key, label);
            let k = touched_index(g.fans, key);
            Gathered { fans: t.update(k, FanModel { rpm: Some(n), ..t[k] }), ..g }
        },
        Some(ReadingKind::Duty) => {
            let t = touch(g.fans, key, label);
            let k = touched_index(g.fans, key);
            Gathered { fans: t.update(k, FanModel { duty: Some(n), ..t[k] }), ..g }
        },
        Some(ReadingKind::Temperature) => Gathered { temps: g.temps.push((key, n)), ..g },
        None => g,
    }
}

/// Index of the chip entry for `key`, if any.
pub open spec fn find_chip(chips: Seq<(Seq<char>, Seq<char>)>, key: Seq<char>) -> Option<int>
    decreases chips.len(),
{
    if chips.len() == 0 {
        None
    } else if chips.last().0 == key {
        match find_chip(chips.drop_last(), key) {
            Some(k) => Some(k),
            None => Some(chips.len() - 1),
        }
    } else {
        find_chip(chips.drop_last(), key)
    }
}

/// Records that `key` came from `chip` (replacing an earlier record).
pub open spec fn chip_put(chips: Seq<(Seq<char>, Seq<char>)>, key: Seq<char>, chip: Seq<char>) -> Seq<
    (Seq<char>, Seq<char>),
> {
    match find_chip(chips, key) {
        Some(k) => chips.update(k, (key, chip)),
        None => chips.push((key, chip)),
    }
}

/// The chip `key` came from, if recorded.
pub open spec fn chip_of(chips: Seq<(Seq<char>, Seq<char>)>, key: Seq<char>) -> Option<Seq<char>> {
    match find_chip(chips, key) {
        Some(k) => Some(chips[k].1),
        None => None,
    }
}

/// The numeric fields of a sensor object without `input` or `value`, each
/// classified by its own name, the sensor key and the label.
pub open spec fn gather_fields(
    g: Gathered,
    fields: Seq<FieldModel>,
    key_lower: Seq<char>,
    label: Option<Seq<char>>,
    map_key: Seq<char>,
) -> Gathered
    decreases fields.len(),
{
    if fields.len() == 0 {
        g
    } else {
        let g0 = gather_fields(g, fields.drop_last(), key_lower, label, map_key);
        let f = fields.last();
        match f.value {
            FieldV::Number(n) => {
                let ik = lowercase(f.key);
                apply_reading(
                    g0,
                    map_key,
                    label,
                    kind_of(
                        contains_seq(ik, "fan"@) || contains_seq(key_lower, "fan"@) || label_has(label, "fan"@),
                        contains_seq(ik, "pwm"@) || contains_seq(key_lower, "pwm"@) || label_has(label, "pwm"@),
                        contains_seq(ik, "temp"@) || contains_seq(key_lower, "temp"@) || label_has(
                            label,
                            "temp"@,
                        ),
                    ),
                    n,
                )
            },
            _ => g0,
        }
    }
}

/// One sensor of chip `chip` taken in.
pub open spec fn gather_entry(g: Gathered, chip: Seq<char>, e: EntryModel) -> Gathered {
    let key_lower = lowercase(e.key);
    let label = entry_label(e);
    let map_key = entry_map_key(chip, e);
    let g1 = Gathered { chips: chip_put(g.chips, map_key, chip), ..g };
    match e.value {
        SensorV::Object(fields) => match input_of(fields) {
            Some(FieldV::Number(n)) => apply_reading(
                g1,
                map_key,
                label,
                kind_of(
                    contains_seq(key_lower, "fan"@) || label_has(label, "fan"@),
                    contains_seq(key_lower, "pwm"@) || label_has(label, "pwm"@),
                    contains_seq(key_lower, "temp"@) || label_has(label, "temp"@),
                ),
                n,
            ),
            Some(_) => g1,
            None => gather_fields(g1, fields, key_lower, label, map_key),
        },
        SensorV::Leaf(FieldV::Number(n)) => apply_reading(
            g1,
            map_key,
            label,
            kind_of(
                contains_seq(key_lower, "fan"@),
                contains_seq(key_lower, "pwm"@),
                contains_seq(key_lower, "temp"@),
            ),
            n,
        ),
        SensorV::Leaf(_) => g1,
    }
}

pub open spec fn gather_entries(g: Gathered, chip: Seq<char>, es: Seq<EntryModel>) -> Gathered
    decreases es.len(),
{
    if es.len() == 0 {
        g
    } else {
        gather_entry(gather_entries(g, chip, es.drop_last()), chip, es.last())
    }
}

/// Every sensor of every chip taken in, in order.
pub open spec fn gather_chips(chips: Seq<ChipModel>) -> Gathered
    decreases chips.len(),
{
    if chips.len() == 0 {
        Gathered { fans: seq![], chips: seq![], temps: seq![] }
    } else {
        let g = gather_chips(chips.drop_last());
        let c = chips.last();
        match c.entries {
            Some(es) => gather_entries(g, c.name, es),
            None => g,
        }
    }
}


// ---------------------------------------------------------------------------
// Reading the tree: executable side
// ---------------------------------------------------------------------------

struct GatheredExec {
    fans: Vec<Rec>,
    chips: Vec<(Vec<char>, Vec<char>)>,
    temps: Vec<(Vec<char>, u64)>,
}

spec fn pairs_view(v: Seq<(Vec<char>, Vec<char>)>) -> Seq<(Seq<char>, Seq<char>)> {
    v.map_values(|p: (Vec<char>, Vec<char>)| (p.0@, p.1@))
}

spec fn temps_view(v: Seq<(Vec<char>, u64)>) -> Seq<(Seq<char>, u64)> {
    v.map_values(|p: (Vec<char>, u64)| (p.0@, p.1))
}

impl View for GatheredExec {
    type V = Gathered;

    closed spec fn view(&self) -> Gathered {
        Gathered {
            fans: recs_view(self.fans@),
            chips: pairs_view(self.chips@),
            temps: temps_view(self.temps@),
        }
    }
}

fn key_chars(s: &String) -> (r: Vec<char>)
    ensures
        r@ == s@,
{
    chars_of(s.as_str())
}

fn field_index(fields: &Vec<SensorField>, k: &[char]) -> (r: Option<usize>)
    ensures
        match r {
            Some(i) => i < fields@.len() && field_get(fields@.map_values(|f: SensorField| f@), k@)
                == Some(fields@[i as int]@.value),
            None => field_get(fields@.map_values(|f: SensorField| f@), k@) is None,
        },
{
    let ghost fv = fields@.map_values(|f: SensorField| f@);
    let n = fields.len();
    let mut i: usize = 0;
    assert(fv.skip(0) =~= fv);
    while i < n
        invariant
            n == fields@.len(),
            fv == fields@.map_values(|f: SensorField| f@),
            0 <= i <= n,
            field_get(fv.skip(i as int), k@) == field_get(fv, k@),
        decreases n - i,
    {
        let key = key_chars(&fields[i].key);
        assert(fv.skip(i as int)[0] == fields@[i as int]@);
        if chars_eq(&key, k) {
            return Some(i);
        }
        assert(fv.skip(i as int).drop_first() =~= fv.skip(i + 1));
        i += 1;
    }
    assert(fv.skip(i as int).len() == 0);
    None
}

fn contains_lit(s: &[char], lit: &str) -> (r: bool)
    ensures
        r == contains_seq(s@, lit@),
{
    contains_chars(s, &chars_of(lit))
}

fn label_like_exec(key: &[char]) -> (r: bool)
    ensures
        r == label_like(key@),
{
    let kl = trim_chars(&lower_chars(key));
    !chars_eq(&kl, &chars_of("adapter")) && (contains_lit(&kl, "fan") || contains_lit(&kl, "temp")
        || contains_lit(&kl, "pwm") || contains_lit(&kl, "cpu") || contains_lit(&kl, "gpu"))
}

fn entry_label_exec(e: &SensorEntry) -> (r: Option<Vec<char>>)
    ensures
        match (r, entry_label(e@)) {
            (Some(a), Some(b)) => a@ == b,
            (None, None) => true,
            _ => false,
        },
{
    let explicit: Option<Vec<char>> = match &e.value {
        SensorValue::Object(fields) => match field_index(fields, &chars_of("label")) {
            Some(i) => match &fields[i].value {
                FieldValue::Text(t) => Some(key_chars(t)),
                _ => None,
            },
            None => None,
        },
        _ => None,
    };
    match explicit {
        Some(l) => Some(l),
        None => {
            let key = key_chars(&e.key);
            if label_like_exec(&key) {
                Some(key)
            } else {
                None
            }
        },
    }
}

fn label_has_exec(label: &Option<Vec<char>>, w: &str) -> (r: bool)
    ensures
        r == label_has(
            match *label {
                Some(l) => Some(l@),
                None => None,
            },
            w@,
        ),
{
    match label {
        Some(l) => contains_lit(&lower_chars(l), w),
        None => false,
    }
}

spec fn opt_view(v: Option<Vec<char>>) -> Option<Seq<char>> {
    match v {
        Some(l) => Some(l@),
        None => None,
    }
}

fn find_fan_exec(fans: &Vec<Rec>, id: &[char]) -> (r: Option<usize>)
    ensures
        match r {
            Some(k) => find_fan(recs_view(fans@), id@) == Some(k as int),
            None => find_fan(recs_view(fans@), id@) is None,
        },
{
    let n = fans.len();
    for i in 0..n
        invariant
            n == fans@.len(),
            find_fan(recs_view(fans@).take(i as int), id@) is None,
    {
        let ghost t = recs_view(fans@).take(i + 1);
        assert(t.drop_last() =~= recs_view(fans@).take(i as int));
        if chars_eq(&fans[i].id, id) {
            proof {
                lemma_find_fan_extend(recs_view(fans@), id@, i as int);
            }
            return Some(i);
        }
    }
    assert(recs_view(fans@).take(n as int) =~= recs_view(fans@));
    None
}

/// Finding in a longer sequence gives the index found in its first `i + 1`
/// elements when that one is `i`.
proof fn lemma_find_fan_extend(fans: Seq<FanModel>, id: Seq<char>, i: int)
    requires
        0 <= i < fans.len(),
        find_fan(fans.take(i), id) is None,
        fans[i].id == id,
    ensures
        find_fan(fans, id) == Some(i),
    decreases fans.len(),
{
    if fans.len() == i + 1 {
        assert(fans.drop_last() =~= fans.take(i));
    } else {
        assert(fans.drop_last().take(i) =~= fans.take(i));
        lemma_find_fan_extend(fans.drop_last(), id, i);
    }
}

fn touch_exec(fans: &mut Vec<Rec>, id: &[char], label: &Option<Vec<char>>) -> (k: usize)
    ensures
        recs_view(final(fans)@) == touch(recs_view(old(fans)@), id@, opt_view(*label)),
        k as int == touched_index(recs_view(old(fans)@), id@),
        k < final(fans)@.len(),
{
    let ghost v0 = recs_view(fans@);
    match find_fan_exec(fans, id) {
        Some(k) => {
            proof {
                lemma_find_fan_in_range(v0, id@);
            }
            if fans[k].label.is_none() {
                let old_rec = rec_clone(&fans[k]);
                let r = Rec { label: opt_clone(label), ..old_rec };
                fans.set(k, r);
                assert(recs_view(fans@) =~= v0.update(k as int, FanModel { label: opt_view(*label), ..v0[k as int] }));
            }
            k
        },
        None => {
            let idv = slice_range(id, 0, id.len());
            assert(idv@ =~= id@);
            let r = Rec { id: idv, label: opt_clone(label), rpm: None, duty: None, temp: None };
            assert(r@ == new_fan(id@, opt_view(*label)));
            fans.push(r);
            assert(recs_view(fans@) =~= v0.push(new_fan(id@, opt_view(*label))));
            fans.len() - 1
        },
    }
}

proof fn lemma_find_fan_in_range(fans: Seq<FanModel>, id: Seq<char>)
    ensures
        find_fan(fans, id) matches Some(k) ==> 0 <= k < fans.len() && fans[k].id == id,
    decreases fans.len(),
{
    if fans.len() > 0 {
        lemma_find_fan_in_range(fans.drop_last(), id);
    }
}


fn apply_reading_exec(
    g: &mut GatheredExec,
    key: &[char],
    label: &Option<Vec<char>>,
    kind: Option<ReadingKind>,
    n: u64,
)
    ensures
        final(g)@ == apply_reading(old(g)@, key@, opt_view(*label), kind, n),
{
    match kind {
        Some(ReadingKind::Speed) => {
            let ghost t0 = g@;
            let k = touch_exec(&mut g.fans, key, label);
            let ghost t = recs_view(g.fans@);
            let old_rec = rec_clone(&g.fans[k]);
            g.fans.set(k, Rec { rpm: Some(n), ..old_rec });
            assert(recs_view(g.fans@) =~= t.update(k as int, FanModel { rpm: Some(n), ..t[k as int] }));
            assert(g@ == apply_reading(t0, key@, opt_view(*label), kind, n));
        },
        Some(ReadingKind::Duty) => {
            let ghost t0 = g@;
            let k = touch_exec(&mut g.fans, key, label);
            let ghost t = recs_view(g.fans@);
            let old_rec = rec_clone(&g.fans[k]);
            g.fans.set(k, Rec { duty: Some(n), ..old_rec });
            assert(recs_view(g.fans@) =~= t.update(k as int, FanModel { duty: Some(n), ..t[k as int] }));
            assert(g@ == apply_reading(t0, key@, opt_view(*label), kind, n));
        },
        Some(ReadingKind::Temperature) => {
            let ghost t0 = g@;
            let kv = slice_range(key, 0, key.len());
            assert(kv@ =~= key@);
            g.temps.push((kv, n));
            assert(temps_view(g.temps@) =~= t0.temps.push((key@, n)));
        },
        None => {},
    }
}

fn find_chip_exec(chips: &Vec<(Vec<char>, Vec<char>)>, key: &[char]) -> (r: Option<usize>)
    ensures
        match r {
            Some(k) => find_chip(pairs_view(chips@), key@) == Some(k as int) && k < chips@.len(),
            None => find_chip(pairs_view(chips@), key@) is None,
        },
{
    let n = chips.len();
    for i in 0..n
        invariant
            n == chips@.len(),
            find_chip(pairs_view(chips@).take(i as int), key@) is None,
    {
        assert(pairs_view(chips@).take(i + 1).drop_last() =~= pairs_view(chips@).take(i as int));
        if chars_eq(&chips[i].0, key) {
            proof {
                lemma_find_chip_extend(pairs_view(chips@), key@, i as int);
            }
            return Some(i);
        }
    }
    assert(pairs_view(chips@).take(n as int) =~= pairs_view(chips@));
    None
}

proof fn lemma_find_chip_extend(chips: Seq<(Seq<char>, Seq<char>)>, key: Seq<char>, i: int)
    requires
        0 <= i < chips.len(),
        find_chip(chips.take(i), key) is None,
        chips[i].0 == key,
    ensures
        find_chip(chips, key) == Some(i),
    decreases chips.len(),
{
    if chips.len() == i + 1 {
        assert(chips.drop_last() =~= chips.take(i));
    } else {
        assert(chips.drop_last().take(i) =~= chips.take(i));
        lemma_find_chip_extend(chips.drop_last(), key, i);
    }
}

fn chip_put_exec(chips: &mut Vec<(Vec<char>, Vec<char>)>, key: &[char], chip: &[char])
    ensures
        pairs_view(final(chips)@) == chip_put(pairs_view(old(chips)@), key@, chip@),
{
    let ghost v0 = pairs_view(chips@);
    let kv = slice_range(key, 0, key.len());
    let cv = slice_range(chip, 0, chip.len());
    assert(kv@ =~= key@);
    assert(cv@ =~= chip@);
    match find_chip_exec(chips, key) {
        Some(k) => {
            chips.set(k, (kv, cv));
            assert(pairs_view(chips@) =~= v0.update(k as int, (key@, chip@)));
        },
        None => {
            chips.push((kv, cv));
            assert(pairs_view(chips@) =~= v0.push((key@, chip@)));
        },
    }
}

fn gather_fields_exec(
    g: &mut GatheredExec,
    fields: &Vec<SensorField>,
    key_lower: &[char],
    label: &Option<Vec<char>>,
    map_key: &[char],
)
    ensures
        final(g)@ == gather_fields(
            old(g)@,
            fields@.map_values(|f: SensorField| f@),
            key_lower@,
            opt_view(*label),
            map_key@,
        ),
{
    let ghost fv = fields@.map_values(|f: SensorField| f@);
    let ghost g0 = g@;
    let n = fields.len();
    let kl_fan = contains_lit(key_lower, "fan");
    let kl_pwm = contains_lit(key_lower, "pwm");
    let kl_temp = contains_lit(key_lower, "temp");
    let lb_fan = label_has_exec(label, "fan");
    let lb_pwm = label_has_exec(label, "pwm");
    let lb_temp = label_has_exec(label, "temp");
    for i in 0..n
        invariant
            n == fields@.len(),
            fv == fields@.map_values(|f: SensorField| f@),
            g@ == gather_fields(g0, fv.take(i as int), key_lower@, opt_view(*label), map_key@),
            kl_fan == contains_seq(key_lower@, "fan"@),
            kl_pwm == contains_seq(key_lower@, "pwm"@),
            kl_temp == contains_seq(key_lower@, "temp"@),
            lb_fan == label_has(opt_view(*label), "fan"@),
            lb_pwm == label_has(opt_view(*label), "pwm"@),
            lb_temp == label_has(opt_view(*label), "temp"@),
    {
        assert(fv.take(i + 1).drop_last() =~= fv.take(i as int));
        assert(fv.take(i + 1).last() == fields@[i as int]@);
        match &fields[i].value {
            FieldValue::Number(num) => {
                let ik = lower_chars(&key_chars(&fields[i].key));
                let kind = if contains_lit(&ik, "fan") || kl_fan || lb_fan {
                    Some(ReadingKind::Speed)
                } else if contains_lit(&ik, "pwm") || kl_pwm || lb_pwm {
                    Some(ReadingKind::Duty)
                } else if contains_lit(&ik, "temp") || kl_temp || lb_temp {
                    Some(ReadingKind::Temperature)
                } else {
                    None
                };
                apply_reading_exec(g, map_key, label, kind, *num);
            },
            _ => {},
        }
    }
    assert(fv.take(n as int) =~= fv);
}

fn gather_entry_exec(g: &mut GatheredExec, chip: &[char], e: &SensorEntry)
    ensures
        final(g)@ == gather_entry(old(g)@, chip@, e@),
{
    let key = key_chars(&e.key);
    let key_lower = lower_chars(&key);
    let label = entry_label_exec(e);
    let map_key: Vec<char> = match &label {
        Some(l) => slice_range(l, 0, l.len()),
        None => {
            let mut m = slice_range(chip, 0, chip.len());
            m.push(':');
            proof {
                reveal_strlit(":");
                assert(m@ =~= chip@ + ":"@ + key@.take(0));
            }
            let mut j: usize = 0;
            while j < key.len()
                invariant
                    0 <= j <= key@.len(),
                    m@ == chip@ + ":"@ + key@.take(j as int),
                decreases key@.len() - j,
            {
                proof {
                    reveal_strlit(":");
                }
                m.push(key[j]);
                assert(key@.take(j + 1) =~= key@.take(j as int).push(key@[j as int]));
                j += 1;
            }
            assert(key@.take(key@.len() as int) =~= key@);
            m
        },
    };
    proof {
        reveal_strlit(":");
        if label is None {
            assert(map_key@ =~= chip@ + ":"@ + key@);
        } else {
            assert(map_key@ =~= label.unwrap()@);
        }
    }
    chip_put_exec(&mut g.chips, &map_key, chip);
    match &e.value {
        SensorValue::Object(fields) => {
            let input = match field_index(fields, &chars_of("input")) {
                Some(i) => Some(i),
                None => field_index(fields, &chars_of("value")),
            };
            match input {
                Some(i) => match &fields[i].value {
                    FieldValue::Number(num) => {
                        let kind = if contains_lit(&key_lower, "fan") || label_has_exec(&label, "fan") {
                            Some(ReadingKind::Speed)
                        } else if contains_lit(&key_lower, "pwm") || label_has_exec(&label, "pwm") {
                            Some(ReadingKind::Duty)
                        } else if contains_lit(&key_lower, "temp") || label_has_exec(&label, "temp") {
                            Some(ReadingKind::Temperature)
                        } else {
                            None
                        };
                        apply_reading_exec(g, &map_key, &label, kind, *num);
                    },
                    _ => {},
                },
                None => {
                    gather_fields_exec(g, fields, &key_lower, &label, &map_key);
                },
            }
        },
        SensorValue::Leaf(FieldValue::Number(num)) => {
            let kind = if contains_lit(&key_lower, "fan") {
                Some(ReadingKind::Speed)
            } else if contains_lit(&key_lower, "pwm") {
                Some(ReadingKind::Duty)
            } else if contains_lit(&key_lower, "temp") {
                Some(ReadingKind::Temperature)
            } else {
                None
            };
            apply_reading_exec(g, &map_key, &label, kind, *num);
        },
        SensorValue::Leaf(_) => {},
    }
}

fn gather_chips_exec(chips: &Vec<SensorChip>) -> (g: GatheredExec)
    ensures
        g@ == gather_chips(chips_view(chips@)),
{
    let mut g = GatheredExec { fans: Vec::new(), chips: Vec::new(), temps: Vec::new() };
    let ghost cv = chips_view(chips@);
    assert(g@.fans =~= Seq::<FanModel>::empty());
    assert(g@.chips =~= Seq::<(Seq<char>, Seq<char>)>::empty());
    assert(g@.temps =~= Seq::<(Seq<char>, u64)>::empty());
    assert(g@ == gather_chips(cv.take(0)));
    let n = chips.len();
    for i in 0..n
        invariant
            n == chips@.len(),
            cv == chips_view(chips@),
            g@ == gather_chips(cv.take(i as int)),
    {
        assert(cv.take(i + 1).drop_last() =~= cv.take(i as int));
        assert(cv.take(i + 1).last() == chips@[i as int]@);
        let name = key_chars(&chips[i].name);
        match &chips[i].entries {
            Some(es) => {
                let ghost ev = es@.map_values(|e: SensorEntry| e@);
                let ghost gi = g@;
                let m = es.len();
                for j in 0..m
                    invariant
                        m == es@.len(),
                        ev == es@.map_values(|e: SensorEntry| e@),
                        g@ == gather_entries(gi, name@, ev.take(j as int)),
                {
                    assert(ev.take(j + 1).drop_last() =~= ev.take(j as int));
                    assert(ev.take(j + 1).last() == es@[j as int]@);
                    gather_entry_exec(&mut g, &name, &es[j]);
                }
                assert(ev.take(m as int) =~= ev);
            },
            None => {},
        }
    }
    assert(cv.take(n as int) =~= cv);
    g
}


// ---------------------------------------------------------------------------
// Temperatures, duplicates, PWM entries, order
// ---------------------------------------------------------------------------

/// Index of the first fan satisfying `p`, if any.
pub open spec fn first_where(fans: Seq<FanModel>, p: spec_fn(FanModel) -> bool) -> Option<int>
    decreases fans.len(),
{
    if fans.len() == 0 {
        None
    } else {
        match first_where(fans.drop_last(), p) {
            Some(k) => Some(k),
            None => if p(fans.last()) {
                Some(fans.len() - 1)
            } else {
                None
            },
        }
    }
}

proof fn lemma_first_where_extend(fans: Seq<FanModel>, p: spec_fn(FanModel) -> bool, i: int)
    requires
        0 <= i <= fans.len(),
        first_where(fans.take(i), p) is None,
    ensures
        i < fans.len() && p(fans[i]) ==> first_where(fans.take(i + 1), p) == Some(i),
        i < fans.len() && !p(fans[i]) ==> first_where(fans.take(i + 1), p) is None,
        first_where(fans.take(i), p) is None,
{
    if i < fans.len() {
        assert(fans.take(i + 1).drop_last() =~= fans.take(i));
    }
}

proof fn lemma_first_where_range(fans: Seq<FanModel>, p: spec_fn(FanModel) -> bool)
    ensures
        first_where(fans, p) matches Some(k) ==> 0 <= k < fans.len() && p(fans[k]),
    decreases fans.len(),
{
    if fans.len() > 0 {
        lemma_first_where_range(fans.drop_last(), p);
    }
}

/// What is left of a temperature key to match fans by: lowercase, without
/// the words fan, temp, pwm and adapter, `':'` turned to a space, trimmed.
pub open spec fn temp_base(key: Seq<char>) -> Seq<char> {
    trim(
        replace_char(
            remove_all(
                remove_all(remove_all(remove_all(lowercase(key), "fan"@), "temp"@), "pwm"@),
                "adapter"@,
            ),
            ':',
            ' ',
        ),
    )
}

pub open spec fn matches_base(f: FanModel, base: Seq<char>) -> bool {
    label_has(f.label, base) || contains_seq(lowercase(f.id), base)
}

pub open spec fn set_temp(fans: Seq<FanModel>, k: int, t: u64) -> Seq<FanModel> {
    fans.update(k, FanModel { temp: Some(t), ..fans[k] })
}

/// The fan a temperature filed under `key` belongs to: the first whose label
/// or id mentions [`temp_base`], else the first whose id starts with the
/// chip part of `key` (before a `':'`).
pub open spec fn temp_owner(fans: Seq<FanModel>, key: Seq<char>) -> Option<int> {
    let base = temp_base(key);
    let by_base = if base.len() > 0 {
        first_where(fans, |f: FanModel| matches_base(f, base))
    } else {
        None
    };
    match by_base {
        Some(k) => Some(k),
        None => match find_from(key, ':', 0) {
            Some(pos) => first_where(fans, |f: FanModel| starts_with(f.id, key.take(pos))),
            None => None,
        },
    }
}

/// A temperature attached to its fan, or filed as a fan of its own.
pub open spec fn attach_temp(fans: Seq<FanModel>, key: Seq<char>, t: u64) -> Seq<FanModel> {
    match temp_owner(fans, key) {
        Some(k) => set_temp(fans, k, t),
        None => {
            let f = FanModel { temp: Some(t), ..new_fan(key, None) };
            match find_fan(fans, key) {
                Some(k) => fans.update(k, f),
                None => fans.push(f),
            }
        },
    }
}

pub open spec fn attach_temps(fans: Seq<FanModel>, temps: Seq<(Seq<char>, u64)>) -> Seq<FanModel>
    decreases temps.len(),
{
    if temps.len() == 0 {
        fans
    } else {
        let f0 = attach_temps(fans, temps.drop_last());
        attach_temp(f0, temps.last().0, temps.last().1)
    }
}

fn temp_base_exec(key: &[char]) -> (r: Vec<char>)
    ensures
        r@ == temp_base(key@),
{
    let l = lower_chars(key);
    let a = remove_all_chars(&l, &chars_of("fan"));
    let b = remove_all_chars(&a, &chars_of("temp"));
    let c = remove_all_chars(&b, &chars_of("pwm"));
    let d = remove_all_chars(&c, &chars_of("adapter"));
    let e = replace_char_chars(&d, ':', ' ');
    trim_chars(&e)
}

fn matches_base_exec(f: &Rec, base: &[char]) -> (r: bool)
    ensures
        r == matches_base(f@, base@),
{
    let by_label = match &f.label {
        Some(l) => contains_chars(&lower_chars(l), base),
        None => false,
    };
    by_label || contains_chars(&lower_chars(&f.id), base)
}

fn temp_owner_exec(fans: &Vec<Rec>, key: &[char]) -> (r: Option<usize>)
    ensures
        match r {
            Some(k) => temp_owner(recs_view(fans@), key@) == Some(k as int) && k < fans@.len(),
            None => temp_owner(recs_view(fans@), key@) is None,
        },
{
    let ghost fv = recs_view(fans@);
    let base = temp_base_exec(key);
    let n = fans.len();
    if base.len() > 0 {
        let ghost p = |f: FanModel| matches_base(f, base@);
        for i in 0..n
            invariant
                n == fans@.len(),
                fv == recs_view(fans@),
                p == (|f: FanModel| matches_base(f, base@)),
                base@ == temp_base(key@),
                base@.len() > 0,
                first_where(fv.take(i as int), p) is None,
        {
            proof {
                lemma_first_where_extend(fv, p, i as int);
            }
            if matches_base_exec(&fans[i], &base) {
                proof {
                    lemma_first_where_prefix(fv, p, i + 1);
                    let q = |f: FanModel| matches_base(f, temp_base(key@));
                    assert(p =~= q);
                    assert(first_where(fv, q) == Some(i as int));
                    assert(temp_base(key@).len() > 0);
                    assert(temp_owner(fv, key@) == Some(i as int));
                }
                return Some(i);
            }
        }
        assert(fv.take(n as int) =~= fv);
        assert(p =~= (|f: FanModel| matches_base(f, temp_base(key@))));
    }
    match find_char(key, ':') {
        Some(pos) => {
            let chip = slice_range(key, 0, pos);
            assert(chip@ =~= key@.take(pos as int));
            let ghost p = |f: FanModel| starts_with(f.id, key@.take(pos as int));
            for i in 0..n
                invariant
                    n == fans@.len(),
                    fv == recs_view(fans@),
                    chip@ == key@.take(pos as int),
                    find_from(key@, ':', 0) == Some(pos as int),
                    base@ == temp_base(key@),
                    base@.len() > 0 ==> first_where(fv, |f: FanModel| matches_base(f, temp_base(key@))) is None,
                    p == (|f: FanModel| starts_with(f.id, key@.take(pos as int))),
                    first_where(fv.take(i as int), p) is None,
            {
                proof {
                    lemma_first_where_extend(fv, p, i as int);
                }
                if starts_with_chars(&fans[i].id, &chip) {
                    proof {
                        lemma_first_where_prefix(fv, p, i + 1);
                        let q = |f: FanModel| starts_with(f.id, key@.take(pos as int));
                        assert(p =~= q);
                        assert(first_where(fv, q) == Some(i as int));
                        assert(find_from(key@, ':', 0) == Some(pos as int));
                        assert(temp_owner(fv, key@) == Some(i as int));
                    }
                    return Some(i);
                }
            }
            assert(fv.take(n as int) =~= fv);
            None
        },
        None => None,
    }
}

/// Once a prefix holds a match, the whole sequence finds the same one.
proof fn lemma_first_where_prefix(fans: Seq<FanModel>, p: spec_fn(FanModel) -> bool, i: int)
    requires
        0 <= i <= fans.len(),
        first_where(fans.take(i), p) is Some,
    ensures
        first_where(fans, p) == first_where(fans.take(i), p),
    decreases fans.len() - i,
{
    if i < fans.len() {
        assert(fans.take(i + 1).drop_last() =~= fans.take(i));
        lemma_first_where_prefix(fans, p, i + 1);
    } else {
        assert(fans.take(i) =~= fans);
    }
}

fn attach_temps_exec(fans: &mut Vec<Rec>, temps: &Vec<(Vec<char>, u64)>)
    ensures
        recs_view(final(fans)@) == attach_temps(recs_view(old(fans)@), temps_view(temps@)),
{
    let ghost f0 = recs_view(fans@);
    let ghost tv = temps_view(temps@);
    let n = temps.len();
    for i in 0..n
        invariant
            n == temps@.len(),
            tv == temps_view(temps@),
            recs_view(fans@) == attach_temps(f0, tv.take(i as int)),
    {
        assert(tv.take(i + 1).drop_last() =~= tv.take(i as int));
        assert(tv.take(i + 1).last() == (temps@[i as int].0@, temps@[i as int].1));
        let key = &temps[i].0;
        let t = temps[i].1;
        let ghost fv = recs_view(fans@);
        match temp_owner_exec(fans, key) {
            Some(k) => {
                let old_rec = rec_clone(&fans[k]);
                fans.set(k, Rec { temp: Some(t), ..old_rec });
                assert(recs_view(fans@) =~= set_temp(fv, k as int, t));
            },
            None => {
                let r = Rec { id: slice_range(key, 0, key.len()), label: None, rpm: None, duty: None, temp: Some(t) };
                assert(r.id@ =~= key@);
                assert(r@ == FanModel { temp: Some(t), ..new_fan(key@, None) });
                match find_fan_exec(fans, key) {
                    Some(k) => {
                        proof {
                            lemma_find_fan_in_range(fv, key@);
                        }
                        fans.set(k, r);
                        assert(recs_view(fans@) =~= fv.update(k as int, FanModel { temp: Some(t), ..new_fan(key@, None) }));
                    },
                    None => {
                        fans.push(r);
                        assert(recs_view(fans@) =~= fv.push(FanModel { temp: Some(t), ..new_fan(key@, None) }));
                    },
                }
            },
        }
    }
    assert(tv.take(n as int) =~= tv);
}


/// What fans are told apart by: the lowercase label, or id without one.
pub open spec fn norm(f: FanModel) -> Seq<char> {
    lowercase(
        match f.label {
            Some(l) => l,
            None => f.id,
        },
    )
}

/// `e` with its missing readings taken from `f`.
pub open spec fn fill(e: FanModel, f: FanModel) -> FanModel {
    FanModel {
        rpm: if e.rpm is None {
            f.rpm
        } else {
            e.rpm
        },
        duty: if e.duty is None {
            f.duty
        } else {
            e.duty
        },
        temp: if e.temp is None {
            f.temp
        } else {
            e.temp
        },
        ..e
    }
}

/// Fans with the same [`norm`] merged into the first of them.
pub open spec fn merge_duplicates(fans: Seq<FanModel>) -> Seq<FanModel>
    decreases fans.len(),
{
    if fans.len() == 0 {
        seq![]
    } else {
        let r = merge_duplicates(fans.drop_last());
        let f = fans.last();
        match first_where(r, |x: FanModel| norm(x) == norm(f)) {
            Some(j) => r.update(j, fill(r[j], f)),
            None => r.push(f),
        }
    }
}

fn norm_exec(f: &Rec) -> (r: Vec<char>)
    ensures
        r@ == norm(f@),
{
    match &f.label {
        Some(l) => lower_chars(l),
        None => lower_chars(&f.id),
    }
}

fn fill_exec(e: &Rec, f: &Rec) -> (r: Rec)
    ensures
        r@ == fill(e@, f@),
{
    let base = rec_clone(e);
    Rec {
        rpm: if e.rpm.is_none() { f.rpm } else { e.rpm },
        duty: if e.duty.is_none() { f.duty } else { e.duty },
        temp: if e.temp.is_none() { f.temp } else { e.temp },
        ..base
    }
}

/// The first fan whose recorded norm is `nf`.
fn first_norm_match(r: &Vec<Rec>, norms: &Vec<Vec<char>>, nf: &Vec<char>) -> (found: Option<usize>)
    requires
        norms@.len() == r@.len(),
        forall|k: int| 0 <= k < r@.len() ==> (#[trigger] norms@[k])@ == norm(r@[k]@),
    ensures
        match found {
            Some(k) => k < r@.len() && first_where(recs_view(r@), |x: FanModel| norm(x) == nf@)
                == Some(k as int),
            None => first_where(recs_view(r@), |x: FanModel| norm(x) == nf@) is None,
        },
{
    let ghost rv = recs_view(r@);
    let ghost p = |x: FanModel| norm(x) == nf@;
    let m = r.len();
    for j in 0..m
        invariant
            m == r@.len(),
            rv == recs_view(r@),
            norms@.len() == m,
            forall|k: int| 0 <= k < m ==> (#[trigger] norms@[k])@ == norm(r@[k]@),
            p == (|x: FanModel| norm(x) == nf@),
            first_where(rv.take(j as int), p) is None,
    {
        proof {
            lemma_first_where_extend(rv, p, j as int);
        }
        if chars_eq(&norms[j], nf) {
            proof {
                lemma_first_where_prefix(rv, p, j + 1);
            }
            return Some(j);
        }
    }
    assert(rv.take(m as int) =~= rv);
    None
}

fn merge_duplicates_exec(fans: &Vec<Rec>) -> (r: Vec<Rec>)
    ensures
        recs_view(r@) == merge_duplicates(recs_view(fans@)),
{
    let ghost fv = recs_view(fans@);
    let n = fans.len();
    let mut r: Vec<Rec> = Vec::new();
    let mut norms: Vec<Vec<char>> = Vec::new();
    assert(recs_view(r@) =~= merge_duplicates(fv.take(0)));
    for i in 0..n
        invariant
            n == fans@.len(),
            fv == recs_view(fans@),
            recs_view(r@) == merge_duplicates(fv.take(i as int)),
            norms@.len() == r@.len(),
            forall|k: int| 0 <= k < r@.len() ==> (#[trigger] norms@[k])@ == norm(r@[k]@),
    {
        assert(fv.take(i + 1).drop_last() =~= fv.take(i as int));
        assert(fv.take(i + 1).last() == fans@[i as int]@);
        let f = &fans[i];
        let nf = norm_exec(f);
        let ghost rv = recs_view(r@);
        let found = first_norm_match(&r, &norms, &nf);
        match found {
            Some(k) => {
                let merged = fill_exec(&r[k], f);
                r.set(k, merged);
                assert(recs_view(r@) =~= rv.update(k as int, fill(rv[k as int], fans@[i as int]@)));
            },
            None => {
                r.push(rec_clone(f));
                norms.push(nf);
                assert(recs_view(r@) =~= rv.push(fans@[i as int]@));
            },
        }
    }
    assert(fv.take(n as int) =~= fv);
    r
}


/// What is left of a PWM entry's name to find its fan by: lowercase, without
/// `pwm` and digits, trimmed.
pub open spec fn pwm_base(f: FanModel) -> Seq<char> {
    trim(without_digits(remove_all(norm(f), "pwm"@)))
}

/// The prefix recorded for the chip of `key`, empty when none is.
pub open spec fn chip_prefix(chips: Seq<(Seq<char>, Seq<char>)>, key: Seq<char>) -> Seq<char> {
    match chip_of(chips, key) {
        Some(c) => c,
        None => seq![],
    }
}

/// The fan that the PWM-only entry at `i` (a duty and no speed) is folded
/// into: the first other fan of the same chip that has a speed or a CPU
/// label, else the first other fan whose label or id mentions
/// [`pwm_base`]. Candidates are taken from `snap`, the fans before any
/// folding.
pub open spec fn pwm_target(
    snap: Seq<FanModel>,
    chips: Seq<(Seq<char>, Seq<char>)>,
    i: int,
    cur_i: FanModel,
) -> Option<int> {
    if !(cur_i.duty is Some && cur_i.rpm is None) {
        None
    } else {
        let prefix = chip_prefix(chips, snap[i].id);
        let by_chip = if prefix.len() > 0 {
            first_where(
                snap,
                |x: FanModel|
                    x.id != snap[i].id && (x.rpm is Some || label_has(x.label, "cpu"@)) && chip_of(
                        chips,
                        x.id,
                    ) == Some(prefix),
            )
        } else {
            None
        };
        match by_chip {
            Some(j) => Some(j),
            None => {
                let base = pwm_base(cur_i);
                if base.len() > 0 {
                    first_where(
                        snap,
                        |x: FanModel|
                            x.id != snap[i].id && (label_has(x.label, base) || contains_seq(
                                lowercase(x.id),
                                base,
                            )),
                    )
                } else {
                    None
                }
            },
        }
    }
}

/// Entry `i` folded into its target, if it has one: the target takes its
/// duty when it has none, and the entry is marked for removal.
pub open spec fn pwm_step(
    snap: Seq<FanModel>,
    chips: Seq<(Seq<char>, Seq<char>)>,
    st: (Seq<FanModel>, Seq<bool>),
    i: int,
) -> (Seq<FanModel>, Seq<bool>) {
    let cur = st.0;
    match pwm_target(snap, chips, i, cur[i]) {
        Some(j) => (
            if cur[j].duty is None {
                cur.update(j, FanModel { duty: cur[i].duty, ..cur[j] })
            } else {
                cur
            },
            st.1.update(i, true),
        ),
        None => st,
    }
}

pub open spec fn pwm_fold(snap: Seq<FanModel>, chips: Seq<(Seq<char>, Seq<char>)>, n: nat) -> (
    Seq<FanModel>,
    Seq<bool>,
)
    decreases n,
{
    if n == 0 {
        (snap, Seq::new(snap.len(), |k: int| false))
    } else {
        pwm_step(snap, chips, pwm_fold(snap, chips, (n - 1) as nat), n - 1)
    }
}

/// The fans not marked for removal.
pub open spec fn kept(fans: Seq<FanModel>, removed: Seq<bool>) -> Seq<FanModel>
    decreases fans.len(),
{
    if fans.len() == 0 || removed.len() == 0 {
        seq![]
    } else {
        kept(fans.drop_last(), removed.drop_last()) + if removed.last() {
            seq![]
        } else {
            seq![fans.last()]
        }
    }
}

/// Every PWM-only entry that has a target folded into it and removed.
pub open spec fn merge_pwm(fans: Seq<FanModel>, chips: Seq<(Seq<char>, Seq<char>)>) -> Seq<
    FanModel,
> {
    let st = pwm_fold(fans, chips, fans.len());
    kept(st.0, st.1)
}

proof fn lemma_pwm_fold_len(snap: Seq<FanModel>, chips: Seq<(Seq<char>, Seq<char>)>, n: nat)
    requires
        n <= snap.len(),
    ensures
        pwm_fold(snap, chips, n).0.len() == snap.len(),
        pwm_fold(snap, chips, n).1.len() == snap.len(),
        forall|k: int| 0 <= k < snap.len() ==> (#[trigger] pwm_fold(snap, chips, n).0[k]).id == snap[k].id,
        forall|k: int| 0 <= k < snap.len() ==> (#[trigger] pwm_fold(snap, chips, n).0[k]).label == snap[k].label,
    decreases n,
{
    if n > 0 {
        lemma_pwm_fold_len(snap, chips, (n - 1) as nat);
        let st = pwm_fold(snap, chips, (n - 1) as nat);
        lemma_pwm_target_range(snap, chips, n - 1, st.0[n - 1]);
    }
}

proof fn lemma_pwm_target_range(
    snap: Seq<FanModel>,
    chips: Seq<(Seq<char>, Seq<char>)>,
    i: int,
    cur_i: FanModel,
)
    ensures
        pwm_target(snap, chips, i, cur_i) matches Some(j) ==> 0 <= j < snap.len(),
{
    let prefix = chip_prefix(chips, snap[i].id);
    let p1 = |x: FanModel|
        x.id != snap[i].id && (x.rpm is Some || label_has(x.label, "cpu"@)) && chip_of(chips, x.id)
            == Some(prefix);
    lemma_first_where_range(snap, p1);
    let base = pwm_base(cur_i);
    let p2 = |x: FanModel|
        x.id != snap[i].id && (label_has(x.label, base) || contains_seq(lowercase(x.id), base));
    lemma_first_where_range(snap, p2);
}

fn chip_prefix_exec(chips: &Vec<(Vec<char>, Vec<char>)>, key: &[char]) -> (r: Vec<char>)
    ensures
        r@ == chip_prefix(pairs_view(chips@), key@),
{
    match find_chip_exec(chips, key) {
        Some(k) => chips[k].1.clone(),
        None => Vec::new(),
    }
}

fn same_chip_exec(chips: &Vec<(Vec<char>, Vec<char>)>, key: &[char], prefix: &Vec<char>) -> (r: bool)
    ensures
        r == (chip_of(pairs_view(chips@), key@) == Some(prefix@)),
{
    match find_chip_exec(chips, key) {
        Some(k) => chars_eq(&chips[k].1, prefix),
        None => false,
    }
}

fn pwm_target_exec(
    snap: &Vec<Rec>,
    chips: &Vec<(Vec<char>, Vec<char>)>,
    i: usize,
    cur_i: &Rec,
) -> (r: Option<usize>)
    requires
        i < snap@.len(),
    ensures
        match r {
            Some(j) => pwm_target(recs_view(snap@), pairs_view(chips@), i as int, cur_i@) == Some(
                j as int,
            ) && j < snap@.len(),
            None => pwm_target(recs_view(snap@), pairs_view(chips@), i as int, cur_i@) is None,
        },
{
    if !(cur_i.duty.is_some() && cur_i.rpm.is_none()) {
        return None;
    }
    let ghost sv = recs_view(snap@);
    let ghost cv = pairs_view(chips@);
    let n = snap.len();
    let me = &snap[i].id;
    let prefix = chip_prefix_exec(chips, me);
    let cpu = chars_of("cpu");
    let ghost p1 = |x: FanModel|
        x.id != sv[i as int].id && (x.rpm is Some || label_has(x.label, "cpu"@)) && chip_of(
            cv,
            x.id,
        ) == Some(prefix@);
    if prefix.len() > 0 {
        for j in 0..n
            invariant
                n == snap@.len(),
                i < n,
                sv == recs_view(snap@),
                cv == pairs_view(chips@),
                me@ == sv[i as int].id,
                cpu@ == "cpu"@,
                p1 == (|x: FanModel|
                    x.id != sv[i as int].id && (x.rpm is Some || label_has(x.label, "cpu"@))
                        && chip_of(cv, x.id) == Some(prefix@)),
                first_where(sv.take(j as int), p1) is None,
                prefix@ == chip_prefix(cv, sv[i as int].id),
                prefix@.len() > 0,
                cur_i@.duty is Some && cur_i@.rpm is None,
        {
            proof {
                lemma_first_where_extend(sv, p1, j as int);
            }
            let x = &snap[j];
            let hit = !chars_eq(&x.id, me) && (x.rpm.is_some() || label_has_exec(&x.label, "cpu"))
                && same_chip_exec(chips, &x.id, &prefix);
            if hit {
                proof {
                    lemma_first_where_prefix(sv, p1, j + 1);
                    assert(first_where(sv, p1) == Some(j as int));
                }
                return Some(j);
            }
        }
        assert(sv.take(n as int) =~= sv);
    }
    assert(prefix@.len() > 0 ==> first_where(sv, p1) is None);
    let key = norm_exec(cur_i);
    let without = remove_all_chars(&key, &chars_of("pwm"));
    let base = trim_chars(&remove_digits_chars(&without));
    if base.len() == 0 {
        return None;
    }
    let ghost p2 = |x: FanModel|
        x.id != sv[i as int].id && (label_has(x.label, base@) || contains_seq(lowercase(x.id), base@));
    for j in 0..n
        invariant
            n == snap@.len(),
            i < n,
            sv == recs_view(snap@),
            me@ == sv[i as int].id,
            p2 == (|x: FanModel|
                x.id != sv[i as int].id && (label_has(x.label, base@) || contains_seq(
                    lowercase(x.id),
                    base@,
                ))),
            first_where(sv.take(j as int), p2) is None,
            cv == pairs_view(chips@),
            prefix@ == chip_prefix(cv, sv[i as int].id),
            p1 == (|x: FanModel|
                x.id != sv[i as int].id && (x.rpm is Some || label_has(x.label, "cpu"@))
                    && chip_of(cv, x.id) == Some(prefix@)),
            prefix@.len() > 0 ==> first_where(sv, p1) is None,
            base@ == pwm_base(cur_i@),
            base@.len() > 0,
            cur_i@.duty is Some && cur_i@.rpm is None,
    {
        proof {
            lemma_first_where_extend(sv, p2, j as int);
        }
        let x = &snap[j];
        let by_label = match &x.label {
            Some(l) => contains_chars(&lower_chars(l), &base),
            None => false,
        };
        let hit = !chars_eq(&x.id, me) && (by_label || contains_chars(&lower_chars(&x.id), &base));
        if hit {
            proof {
                lemma_first_where_prefix(sv, p2, j + 1);
                assert(first_where(sv, p2) == Some(j as int));
            }
            return Some(j);
        }
    }
    assert(sv.take(n as int) =~= sv);
    None
}


fn recs_clone(v: &Vec<Rec>) -> (r: Vec<Rec>)
    ensures
        recs_view(r@) == recs_view(v@),
        r@.len() == v@.len(),
{
    let n = v.len();
    let mut r: Vec<Rec> = Vec::new();
    for i in 0..n
        invariant
            n == v@.len(),
            r@.len() == i,
            recs_view(r@) == recs_view(v@).take(i as int),
    {
        r.push(rec_clone(&v[i]));
        assert(recs_view(r@) =~= recs_view(v@).take(i + 1));
    }
    assert(recs_view(v@).take(n as int) =~= recs_view(v@));
    r
}

fn merge_pwm_exec(fans: &Vec<Rec>, chips: &Vec<(Vec<char>, Vec<char>)>) -> (r: Vec<Rec>)
    ensures
        recs_view(r@) == merge_pwm(recs_view(fans@), pairs_view(chips@)),
{
    let ghost sv = recs_view(fans@);
    let ghost cv = pairs_view(chips@);
    let n = fans.len();
    let mut cur = recs_clone(fans);
    let mut removed: Vec<bool> = Vec::new();
    for k in 0..n
        invariant
            removed@ == Seq::new(k as nat, |t: int| false),
    {
        removed.push(false);
        assert(removed@ =~= Seq::new((k + 1) as nat, |t: int| false));
    }
    for i in 0..n
        invariant
            n == fans@.len(),
            sv == recs_view(fans@),
            cv == pairs_view(chips@),
            cur@.len() == n,
            removed@.len() == n,
            recs_view(cur@) == pwm_fold(sv, cv, i as nat).0,
            removed@ == pwm_fold(sv, cv, i as nat).1,
    {
        proof {
            lemma_pwm_fold_len(sv, cv, i as nat);
        }
        let ghost st = pwm_fold(sv, cv, i as nat);
        assert(recs_view(cur@)[i as int] == cur@[i as int]@);
        match pwm_target_exec(fans, chips, i, &cur[i]) {
            Some(j) => {
                if cur[j].duty.is_none() {
                    let d = cur[i].duty;
                    let old_rec = rec_clone(&cur[j]);
                    cur.set(j, Rec { duty: d, ..old_rec });
                    assert(recs_view(cur@) =~= st.0.update(
                        j as int,
                        FanModel { duty: st.0[i as int].duty, ..st.0[j as int] },
                    ));
                }
                removed.set(i, true);
            },
            None => {},
        }
    }
    kept_exec(cur, &removed)
}

fn kept_exec(cur: Vec<Rec>, removed: &Vec<bool>) -> (r: Vec<Rec>)
    requires
        removed@.len() == cur@.len(),
    ensures
        recs_view(r@) == kept(recs_view(cur@), removed@),
{
    let ghost cv = recs_view(cur@);
    let n = cur.len();
    let mut r: Vec<Rec> = Vec::new();
    for i in 0..n
        invariant
            n == cur@.len(),
            n == removed@.len(),
            cv == recs_view(cur@),
            recs_view(r@) == kept(cv.take(i as int), removed@.take(i as int)),
    {
        assert(cv.take(i + 1).drop_last() =~= cv.take(i as int));
        assert(removed@.take(i + 1).drop_last() =~= removed@.take(i as int));
        assert(cv.take(i + 1).last() == cur@[i as int]@);
        let ghost before = recs_view(r@);
        if !removed[i] {
            r.push(rec_clone(&cur[i]));
            assert(recs_view(r@) =~= before.push(cur@[i as int]@));
        } else {
            assert(before + Seq::<FanModel>::empty() =~= before);
        }
        assert(recs_view(r@) =~= kept(cv.take(i + 1), removed@.take(i + 1)));
    }
    assert(cv.take(n as int) =~= cv);
    assert(removed@.take(n as int) =~= removed@);
    r
}

pub open spec fn has_reading(f: FanModel) -> bool {
    f.rpm is Some || f.duty is Some
}

/// The fans with a speed or a duty reading.
pub open spec fn with_readings(fans: Seq<FanModel>) -> Seq<FanModel> {
    fans.filter(|f: FanModel| has_reading(f))
}

fn with_readings_exec(fans: Vec<Rec>) -> (r: Vec<Rec>)
    ensures
        recs_view(r@) == with_readings(recs_view(fans@)),
{
    let ghost fv = recs_view(fans@);
    let n = fans.len();
    let mut r: Vec<Rec> = Vec::new();
    for i in 0..n
        invariant
            n == fans@.len(),
            fv == recs_view(fans@),
            recs_view(r@) == fv.take(i as int).filter(|f: FanModel| has_reading(f)),
    {
        assert(fv.take(i + 1).drop_last() =~= fv.take(i as int));
        assert(fv.take(i + 1).last() == fans@[i as int]@);
        reveal_with_fuel(Seq::<_>::filter, 1);
        let ghost before = recs_view(r@);
        if fans[i].rpm.is_some() || fans[i].duty.is_some() {
            r.push(rec_clone(&fans[i]));
            assert(recs_view(r@) =~= before.push(fans@[i as int]@));
        }
    }
    assert(fv.take(n as int) =~= fv);
    r
}

/// `f` placed into `s` after every fan whose [`norm`] is not greater.
pub open spec fn insert_by_norm(s: Seq<FanModel>, f: FanModel) -> Seq<FanModel>
    decreases s.len(),
{
    if s.len() == 0 {
        seq![f]
    } else if seq_le(norm(s.last()), norm(f)) {
        s.push(f)
    } else {
        insert_by_norm(s.drop_last(), f).push(s.last())
    }
}

/// The fans in stable order of [`norm`] (`sort_by_key` on the lowercase
/// label, or id).
pub open spec fn sort_by_norm(s: Seq<FanModel>) -> Seq<FanModel>
    decreases s.len(),
{
    if s.len() == 0 {
        seq![]
    } else {
        insert_by_norm(sort_by_norm(s.drop_last()), s.last())
    }
}

/// Ordered by [`norm`], not decreasing.
pub open spec fn sorted_by_norm(s: Seq<FanModel>) -> bool {
    forall|i: int, j: int|
        0 <= i < j < s.len() ==> seq_le(#[trigger] norm(s[i]), #[trigger] norm(s[j]))
}

proof fn lemma_insert_by_norm(s: Seq<FanModel>, f: FanModel)
    requires
        sorted_by_norm(s),
    ensures
        sorted_by_norm(insert_by_norm(s, f)),
        insert_by_norm(s, f).to_multiset() =~= s.to_multiset().insert(f),
        forall|x: FanModel| #[trigger] insert_by_norm(s, f).contains(x) ==> x == f || s.contains(x),
    decreases s.len(),
{
    broadcast use vstd::seq_lib::group_to_multiset_ensures;

    let r = insert_by_norm(s, f);
    if s.len() == 0 {
        assert(r =~= seq![f]);
        assert(seq![f] =~= Seq::<FanModel>::empty().push(f));
        assert forall|x: FanModel| #[trigger] r.contains(x) implies x == f || s.contains(x) by {
            let k = choose|k: int| 0 <= k < r.len() && r[k] == x;
            assert(k == 0);
        }
    } else if seq_le(norm(s.last()), norm(f)) {
        assert forall|i: int, j: int| 0 <= i < j < r.len() implies seq_le(
            #[trigger] norm(r[i]),
            #[trigger] norm(r[j]),
        ) by {
            if j == s.len() {
                if i < s.len() - 1 {
                    assert(seq_le(norm(s[i]), norm(s[s.len() - 1])));
                    lemma_seq_le_trans(norm(s[i]), norm(s.last()), norm(f));
                }
            } else {
                assert(r[i] == s[i] && r[j] == s[j]);
            }
        }
        assert forall|x: FanModel| #[trigger] r.contains(x) implies x == f || s.contains(x) by {
            let k = choose|k: int| 0 <= k < r.len() && r[k] == x;
            if k < s.len() {
                assert(s[k] == x);
            }
        }
    } else {
        let s0 = s.drop_last();
        let last = s.last();
        assert(sorted_by_norm(s0)) by {
            assert forall|i: int, j: int| 0 <= i < j < s0.len() implies seq_le(
                #[trigger] norm(s0[i]),
                #[trigger] norm(s0[j]),
            ) by {
                assert(s0[i] == s[i] && s0[j] == s[j]);
            }
        }
        lemma_insert_by_norm(s0, f);
        let r0 = insert_by_norm(s0, f);
        lemma_seq_le_total(norm(last), norm(f));
        assert(r =~= r0.push(last));
        assert forall|i: int, j: int| 0 <= i < j < r.len() implies seq_le(
            #[trigger] norm(r[i]),
            #[trigger] norm(r[j]),
        ) by {
            if j == r.len() - 1 {
                assert(r[j] == last);
                assert(r[i] == r0[i]);
                assert(r0.contains(r0[i]));
                if r0[i] != f {
                    let k = choose|k: int| 0 <= k < s0.len() && s0[k] == r0[i];
                    assert(s[k] == r0[i]);
                    assert(seq_le(norm(s[k]), norm(s[s.len() - 1])));
                }
            } else {
                assert(r[i] == r0[i] && r[j] == r0[j]);
            }
        }
        assert forall|x: FanModel| #[trigger] r.contains(x) implies x == f || s.contains(x) by {
            let k = choose|k: int| 0 <= k < r.len() && r[k] == x;
            if k == r.len() - 1 {
                assert(s[s.len() - 1] == x);
            } else {
                assert(r0[k] == x);
                assert(r0.contains(x));
                if x != f {
                    let m = choose|m: int| 0 <= m < s0.len() && s0[m] == x;
                    assert(s[m] == x);
                }
            }
        }
        assert(s =~= s0.push(last));
    }
}

/// Sorting by [`norm`] orders the fans and keeps each of them.
proof fn lemma_sort_by_norm(s: Seq<FanModel>)
    ensures
        sorted_by_norm(sort_by_norm(s)),
        sort_by_norm(s).to_multiset() =~= s.to_multiset(),
    decreases s.len(),
{
    broadcast use vstd::seq_lib::group_to_multiset_ensures;

    if s.len() > 0 {
        lemma_sort_by_norm(s.drop_last());
        lemma_insert_by_norm(sort_by_norm(s.drop_last()), s.last());
        assert(s =~= s.drop_last().push(s.last()));
    }
}

/// No two fans share a lowercase label (or id).
pub open spec fn distinct_names(s: Seq<FanModel>) -> bool {
    forall|i: int, j: int| 0 <= i < j < s.len() ==> norm(#[trigger] s[i]) != norm(#[trigger] s[j])
}

proof fn lemma_first_where_none(fans: Seq<FanModel>, p: spec_fn(FanModel) -> bool)
    ensures
        first_where(fans, p) is None ==> forall|k: int| 0 <= k < fans.len() ==> !p(#[trigger] fans[k]),
    decreases fans.len(),
{
    if fans.len() > 0 {
        lemma_first_where_none(fans.drop_last(), p);
        if first_where(fans, p) is None {
            assert forall|k: int| 0 <= k < fans.len() implies !p(#[trigger] fans[k]) by {
                if k < fans.len() - 1 {
                    assert(fans.drop_last()[k] == fans[k]);
                }
            }
        }
    }
}

proof fn lemma_merge_duplicates_distinct(fans: Seq<FanModel>)
    ensures
        distinct_names(merge_duplicates(fans)),
    decreases fans.len(),
{
    if fans.len() > 0 {
        let r0 = merge_duplicates(fans.drop_last());
        let f = fans.last();
        let p = |x: FanModel| norm(x) == norm(f);
        lemma_merge_duplicates_distinct(fans.drop_last());
        lemma_first_where_range(r0, p);
        lemma_first_where_none(r0, p);
        let r = merge_duplicates(fans);
        match first_where(r0, p) {
            Some(j) => {
                assert(norm(fill(r0[j], f)) == norm(r0[j]));
                assert forall|a: int, b: int| 0 <= a < b < r.len() implies norm(#[trigger] r[a])
                    != norm(#[trigger] r[b]) by {
                    assert(norm(r[a]) == norm(r0[a]));
                    assert(norm(r[b]) == norm(r0[b]));
                }
            },
            None => {
                assert forall|a: int, b: int| 0 <= a < b < r.len() implies norm(#[trigger] r[a])
                    != norm(#[trigger] r[b]) by {
                    if b == r.len() - 1 {
                        assert(r[a] == r0[a]);
                        assert(!p(r0[a]));
                    } else {
                        assert(r[a] == r0[a] && r[b] == r0[b]);
                    }
                }
            },
        }
    }
}

/// No two fans have the same `key`.
pub open spec fn distinct_by(s: Seq<FanModel>, key: spec_fn(FanModel) -> Seq<char>) -> bool {
    forall|i: int, j: int| 0 <= i < j < s.len() ==> key(#[trigger] s[i]) != key(#[trigger] s[j])
}

proof fn lemma_kept_distinct_by(
    fans: Seq<FanModel>,
    removed: Seq<bool>,
    key: spec_fn(FanModel) -> Seq<char>,
)
    requires
        distinct_by(fans, key),
    ensures
        distinct_by(kept(fans, removed), key),
        forall|x: FanModel| #[trigger] kept(fans, removed).contains(x) ==> fans.contains(x),
    decreases fans.len(),
{
    if fans.len() > 0 && removed.len() > 0 {
        let f0 = fans.drop_last();
        assert(distinct_by(f0, key)) by {
            assert forall|a: int, b: int| 0 <= a < b < f0.len() implies key(#[trigger] f0[a])
                != key(#[trigger] f0[b]) by {
                assert(f0[a] == fans[a] && f0[b] == fans[b]);
            }
        }
        lemma_kept_distinct_by(f0, removed.drop_last(), key);
        let k0 = kept(f0, removed.drop_last());
        let k = kept(fans, removed);
        assert forall|x: FanModel| #[trigger] k.contains(x) implies fans.contains(x) by {
            let m = choose|m: int| 0 <= m < k.len() && k[m] == x;
            if m < k0.len() {
                assert(k0[m] == x);
                assert(k0.contains(x));
                let q = choose|q: int| 0 <= q < f0.len() && f0[q] == x;
                assert(fans[q] == x);
            } else {
                assert(fans[fans.len() - 1] == x);
            }
        }
        if !removed.last() {
            assert forall|a: int, b: int| 0 <= a < b < k.len() implies key(#[trigger] k[a])
                != key(#[trigger] k[b]) by {
                if b == k.len() - 1 {
                    assert(k[a] == k0[a]);
                    assert(k0.contains(k0[a]));
                    let q = choose|q: int| 0 <= q < f0.len() && f0[q] == k0[a];
                    assert(fans[q] == k0[a]);
                    assert(k[b] == fans[fans.len() - 1]);
                } else {
                    assert(k[a] == k0[a] && k[b] == k0[b]);
                }
            }
        } else {
            assert(k =~= k0);
        }
    }
}

proof fn lemma_filter_distinct_by(
    s: Seq<FanModel>,
    pred: spec_fn(FanModel) -> bool,
    key: spec_fn(FanModel) -> Seq<char>,
)
    requires
        distinct_by(s, key),
    ensures
        distinct_by(s.filter(pred), key),
    decreases s.len(),
{
    broadcast use vstd::seq_lib::group_filter_ensures;

    reveal_with_fuel(Seq::<_>::filter, 1);
    if s.len() > 0 {
        let s0 = s.drop_last();
        assert(distinct_by(s0, key)) by {
            assert forall|a: int, b: int| 0 <= a < b < s0.len() implies key(#[trigger] s0[a])
                != key(#[trigger] s0[b]) by {
                assert(s0[a] == s[a] && s0[b] == s[b]);
            }
        }
        lemma_filter_distinct_by(s0, pred, key);
        let r0 = s0.filter(pred);
        let r = s.filter(pred);
        if pred(s.last()) {
            assert(r =~= r0.push(s.last()));
            assert forall|a: int, b: int| 0 <= a < b < r.len() implies key(#[trigger] r[a])
                != key(#[trigger] r[b]) by {
                if b == r.len() - 1 {
                    assert(r[a] == r0[a]);
                    assert(r0.contains(r0[a]));
                    s0.lemma_filter_contains_rev(pred, r0[a]);
                    let q = choose|q: int| 0 <= q < s0.len() && s0[q] == r0[a];
                    assert(s[q] == r0[a]);
                    assert(r[b] == s[s.len() - 1]);
                } else {
                    assert(r[a] == r0[a] && r[b] == r0[b]);
                }
            }
        } else {
            assert(r =~= r0);
        }
    }
}

/// Inserting a fan whose key no fan of `s` has keeps the keys distinct.
proof fn lemma_insert_distinct_by(s: Seq<FanModel>, f: FanModel, key: spec_fn(FanModel) -> Seq<char>)
    requires
        sorted_by_norm(s),
        distinct_by(s, key),
        forall|x: FanModel| #[trigger] s.contains(x) ==> key(x) != key(f),
    ensures
        distinct_by(insert_by_norm(s, f), key),
    decreases s.len(),
{
    lemma_insert_by_norm(s, f);
    let r = insert_by_norm(s, f);
    if s.len() > 0 {
        if seq_le(norm(s.last()), norm(f)) {
            assert forall|a: int, b: int| 0 <= a < b < r.len() implies key(#[trigger] r[a])
                != key(#[trigger] r[b]) by {
                if b == s.len() {
                    assert(r[a] == s[a]);
                    assert(s.contains(s[a]));
                } else {
                    assert(r[a] == s[a] && r[b] == s[b]);
                }
            }
        } else {
            let s0 = s.drop_last();
            assert(sorted_by_norm(s0)) by {
                assert forall|i: int, j: int| 0 <= i < j < s0.len() implies seq_le(
                    #[trigger] norm(s0[i]),
                    #[trigger] norm(s0[j]),
                ) by {
                    assert(s0[i] == s[i] && s0[j] == s[j]);
                }
            }
            assert(distinct_by(s0, key)) by {
                assert forall|a: int, b: int| 0 <= a < b < s0.len() implies key(#[trigger] s0[a])
                    != key(#[trigger] s0[b]) by {
                    assert(s0[a] == s[a] && s0[b] == s[b]);
                }
            }
            assert forall|x: FanModel| #[trigger] s0.contains(x) implies key(x) != key(f) by {
                let q = choose|q: int| 0 <= q < s0.len() && s0[q] == x;
                assert(s[q] == x);
                assert(s.contains(x));
            }
            lemma_insert_distinct_by(s0, f, key);
            lemma_insert_by_norm(s0, f);
            let r0 = insert_by_norm(s0, f);
            let last = s.last();
            assert(r =~= r0.push(last));
            assert(s.contains(last)) by {
                assert(s[s.len() - 1] == last);
            }
            assert forall|a: int, b: int| 0 <= a < b < r.len() implies key(#[trigger] r[a])
                != key(#[trigger] r[b]) by {
                if b == r.len() - 1 {
                    assert(r[a] == r0[a]);
                    assert(r0.contains(r0[a]));
                    if r0[a] != f {
                        let q = choose|q: int| 0 <= q < s0.len() && s0[q] == r0[a];
                        assert(s[q] == r0[a]);
                        assert(key(s[q]) != key(s[s.len() - 1]));
                    }
                } else {
                    assert(r[a] == r0[a] && r[b] == r0[b]);
                }
            }
        }
    }
}

proof fn lemma_sort_distinct_by(s: Seq<FanModel>, key: spec_fn(FanModel) -> Seq<char>)
    requires
        distinct_by(s, key),
    ensures
        distinct_by(sort_by_norm(s), key),
        forall|x: FanModel| #[trigger] sort_by_norm(s).contains(x) ==> s.contains(x),
    decreases s.len(),
{
    if s.len() > 0 {
        let s0 = s.drop_last();
        let last = s.last();
        assert(distinct_by(s0, key)) by {
            assert forall|a: int, b: int| 0 <= a < b < s0.len() implies key(#[trigger] s0[a])
                != key(#[trigger] s0[b]) by {
                assert(s0[a] == s[a] && s0[b] == s[b]);
            }
        }
        lemma_sort_distinct_by(s0, key);
        lemma_sort_by_norm(s0);
        let t0 = sort_by_norm(s0);
        assert forall|x: FanModel| #[trigger] t0.contains(x) implies key(x) != key(last) by {
            assert(s0.contains(x));
            let q = choose|q: int| 0 <= q < s0.len() && s0[q] == x;
            assert(s[q] == x);
            assert(key(s[q]) != key(s[s.len() - 1]));
        }
        lemma_insert_distinct_by(t0, last, key);
        lemma_insert_by_norm(t0, last);
        assert forall|x: FanModel| #[trigger] sort_by_norm(s).contains(x) implies s.contains(x) by {
            if x == last {
                assert(s[s.len() - 1] == x);
            } else {
                assert(t0.contains(x));
                assert(s0.contains(x));
                let q = choose|q: int| 0 <= q < s0.len() && s0[q] == x;
                assert(s[q] == x);
            }
        }
    }
}

/// Fans are told apart by their lowercase label (or id): entries that share
/// one are merged, so no two fans of the result have the same.
pub proof fn law_fans_have_distinct_names(chips: Seq<ChipModel>)
    ensures
        distinct_names(interpret(chips)),
{
    let kn = |f: FanModel| norm(f);
    let g = gather_chips(chips);
    let merged = merge_duplicates(attach_temps(g.fans, g.temps));
    lemma_merge_duplicates_distinct(attach_temps(g.fans, g.temps));
    let st = pwm_fold(merged, g.chips, merged.len());
    lemma_pwm_fold_len(merged, g.chips, merged.len());
    assert(distinct_by(st.0, kn)) by {
        assert forall|a: int, b: int| 0 <= a < b < st.0.len() implies kn(#[trigger] st.0[a])
            != kn(#[trigger] st.0[b]) by {
            assert(norm(st.0[a]) == norm(merged[a]));
            assert(norm(st.0[b]) == norm(merged[b]));
        }
    }
    lemma_kept_distinct_by(st.0, st.1, kn);
    let folded = merge_pwm(merged, g.chips);
    lemma_filter_distinct_by(folded, |f: FanModel| has_reading(f), kn);
    lemma_sort_distinct_by(with_readings(folded), kn);
    let out = interpret(chips);
    assert forall|a: int, b: int| 0 <= a < b < out.len() implies norm(#[trigger] out[a]) != norm(
        #[trigger] out[b],
    ) by {
        assert(kn(out[a]) != kn(out[b]));
    }
}

/// No two fans have the same id.
pub open spec fn distinct_ids(s: Seq<FanModel>) -> bool {
    forall|i: int, j: int| 0 <= i < j < s.len() ==> (#[trigger] s[i]).id != (#[trigger] s[j]).id
}

/// Some fan of `s` has this id.
pub open spec fn has_id(s: Seq<FanModel>, id: Seq<char>) -> bool {
    exists|k: int| 0 <= k < s.len() && (#[trigger] s[k]).id == id
}

proof fn lemma_find_fan(fans: Seq<FanModel>, id: Seq<char>)
    ensures
        find_fan(fans, id) matches Some(k) ==> 0 <= k < fans.len() && fans[k].id == id,
        find_fan(fans, id) is None ==> !has_id(fans, id),
    decreases fans.len(),
{
    if fans.len() > 0 {
        let f0 = fans.drop_last();
        lemma_find_fan(f0, id);
        if let Some(k) = find_fan(f0, id) {
            assert(f0[k] == fans[k]);
        }
        if find_fan(fans, id) is None {
            assert forall|k: int| 0 <= k < fans.len() implies (#[trigger] fans[k]).id != id by {
                if k < fans.len() - 1 {
                    assert(f0[k] == fans[k]);
                }
            }
        }
    }
}

proof fn lemma_apply_reading_ids(
    g: Gathered,
    key: Seq<char>,
    label: Option<Seq<char>>,
    kind: Option<ReadingKind>,
    n: u64,
)
    requires
        distinct_ids(g.fans),
    ensures
        distinct_ids(apply_reading(g, key, label, kind, n).fans),
{
    lemma_find_fan(g.fans, key);
    let t = touch(g.fans, key, label);
    let k = touched_index(g.fans, key);
    assert(distinct_ids(t) && 0 <= k < t.len()) by {
        if find_fan(g.fans, key) is None {
            assert forall|i: int, j: int| 0 <= i < j < t.len() implies (#[trigger] t[i]).id != (
            #[trigger] t[j]).id by {
                if j == g.fans.len() {
                    assert(t[i] == g.fans[i]);
                } else {
                    assert(t[i] == g.fans[i] && t[j] == g.fans[j]);
                }
            }
        } else {
            assert forall|i: int, j: int| 0 <= i < j < t.len() implies (#[trigger] t[i]).id != (
            #[trigger] t[j]).id by {
                assert(t[i].id == g.fans[i].id && t[j].id == g.fans[j].id);
            }
        }
    }
    let r = apply_reading(g, key, label, kind, n).fans;
    if kind is Some && !(kind == Some(ReadingKind::Temperature)) {
        assert forall|i: int, j: int| 0 <= i < j < r.len() implies (#[trigger] r[i]).id != (
        #[trigger] r[j]).id by {
            assert(r[i].id == t[i].id && r[j].id == t[j].id);
        }
    }
}

proof fn lemma_gather_fields_ids(
    g: Gathered,
    fields: Seq<FieldModel>,
    key_lower: Seq<char>,
    label: Option<Seq<char>>,
    map_key: Seq<char>,
)
    requires
        distinct_ids(g.fans),
    ensures
        distinct_ids(gather_fields(g, fields, key_lower, label, map_key).fans),
    decreases fields.len(),
{
    if fields.len() > 0 {
        lemma_gather_fields_ids(g, fields.drop_last(), key_lower, label, map_key);
        let g0 = gather_fields(g, fields.drop_last(), key_lower, label, map_key);
        let f = fields.last();
        if let FieldV::Number(n) = f.value {
            let ik = lowercase(f.key);
            lemma_apply_reading_ids(
                g0,
                map_key,
                label,
                kind_of(
                    contains_seq(ik, "fan"@) || contains_seq(key_lower, "fan"@) || label_has(label, "fan"@),
                    contains_seq(ik, "pwm"@) || contains_seq(key_lower, "pwm"@) || label_has(label, "pwm"@),
                    contains_seq(ik, "temp"@) || contains_seq(key_lower, "temp"@) || label_has(
                        label,
                        "temp"@,
                    ),
                ),
                n,
            );
        }
    }
}

proof fn lemma_gather_entry_ids(g: Gathered, chip: Seq<char>, e: EntryModel)
    requires
        distinct_ids(g.fans),
    ensures
        distinct_ids(gather_entry(g, chip, e).fans),
{
    let key_lower = lowercase(e.key);
    let label = entry_label(e);
    let map_key = entry_map_key(chip, e);
    let g1 = Gathered { chips: chip_put(g.chips, map_key, chip), ..g };
    match e.value {
        SensorV::Object(fields) => match input_of(fields) {
            Some(FieldV::Number(n)) => lemma_apply_reading_ids(
                g1,
                map_key,
                label,
                kind_of(
                    contains_seq(key_lower, "fan"@) || label_has(label, "fan"@),
                    contains_seq(key_lower, "pwm"@) || label_has(label, "pwm"@),
                    contains_seq(key_lower, "temp"@) || label_has(label, "temp"@),
                ),
                n,
            ),
            Some(_) => {},
            None => lemma_gather_fields_ids(g1, fields, key_lower, label, map_key),
        },
        SensorV::Leaf(FieldV::Number(n)) => lemma_apply_reading_ids(
            g1,
            map_key,
            label,
            kind_of(
                contains_seq(key_lower, "fan"@),
                contains_seq(key_lower, "pwm"@),
                contains_seq(key_lower, "temp"@),
            ),
            n,
        ),
        SensorV::Leaf(_) => {},
    }
}

proof fn lemma_gather_entries_ids(g: Gathered, chip: Seq<char>, es: Seq<EntryModel>)
    requires
        distinct_ids(g.fans),
    ensures
        distinct_ids(gather_entries(g, chip, es).fans),
    decreases es.len(),
{
    if es.len() > 0 {
        lemma_gather_entries_ids(g, chip, es.drop_last());
        lemma_gather_entry_ids(gather_entries(g, chip, es.drop_last()), chip, es.last());
    }
}

proof fn lemma_gather_chips_ids(chips: Seq<ChipModel>)
    ensures
        distinct_ids(gather_chips(chips).fans),
    decreases chips.len(),
{
    if chips.len() > 0 {
        lemma_gather_chips_ids(chips.drop_last());
        let c = chips.last();
        if let Some(es) = c.entries {
            lemma_gather_entries_ids(gather_chips(chips.drop_last()), c.name, es);
        }
    }
}

proof fn lemma_attach_temp_ids(fans: Seq<FanModel>, key: Seq<char>, t: u64)
    requires
        distinct_ids(fans),
    ensures
        distinct_ids(attach_temp(fans, key, t)),
{
    let r = attach_temp(fans, key, t);
    let base = temp_base(key);
    lemma_first_where_range(fans, |f: FanModel| matches_base(f, base));
    if let Some(pos) = find_from(key, ':', 0) {
        lemma_first_where_range(fans, |f: FanModel| starts_with(f.id, key.take(pos)));
    }
    lemma_find_fan(fans, key);
    match temp_owner(fans, key) {
        Some(k) => {
            assert forall|i: int, j: int| 0 <= i < j < r.len() implies (#[trigger] r[i]).id != (
            #[trigger] r[j]).id by {
                assert(r[i].id == fans[i].id && r[j].id == fans[j].id);
            }
        },
        None => {
            if find_fan(fans, key) is None {
                assert forall|i: int, j: int| 0 <= i < j < r.len() implies (#[trigger] r[i]).id != (
                #[trigger] r[j]).id by {
                    if j == fans.len() {
                        assert(r[i] == fans[i]);
                    } else {
                        assert(r[i] == fans[i] && r[j] == fans[j]);
                    }
                }
            } else {
                assert forall|i: int, j: int| 0 <= i < j < r.len() implies (#[trigger] r[i]).id != (
                #[trigger] r[j]).id by {
                    assert(r[i].id == fans[i].id && r[j].id == fans[j].id);
                }
            }
        },
    }
}

proof fn lemma_attach_temps_ids(fans: Seq<FanModel>, temps: Seq<(Seq<char>, u64)>)
    requires
        distinct_ids(fans),
    ensures
        distinct_ids(attach_temps(fans, temps)),
    decreases temps.len(),
{
    if temps.len() > 0 {
        lemma_attach_temps_ids(fans, temps.drop_last());
        lemma_attach_temp_ids(attach_temps(fans, temps.drop_last()), temps.last().0, temps.last().1);
    }
}

proof fn lemma_merge_duplicates_ids(fans: Seq<FanModel>)
    requires
        distinct_ids(fans),
    ensures
        distinct_ids(merge_duplicates(fans)),
        forall|id: Seq<char>| #[trigger] has_id(merge_duplicates(fans), id) ==> has_id(fans, id),
    decreases fans.len(),
{
    if fans.len() > 0 {
        let f0 = fans.drop_last();
        let f = fans.last();
        assert(distinct_ids(f0)) by {
            assert forall|i: int, j: int| 0 <= i < j < f0.len() implies (#[trigger] f0[i]).id != (
            #[trigger] f0[j]).id by {
                assert(f0[i] == fans[i] && f0[j] == fans[j]);
            }
        }
        lemma_merge_duplicates_ids(f0);
        let r0 = merge_duplicates(f0);
        assert(!has_id(f0, f.id)) by {
            assert forall|k: int| 0 <= k < f0.len() implies (#[trigger] f0[k]).id != f.id by {
                assert(f0[k] == fans[k]);
                assert(f == fans[fans.len() - 1]);
            }
        }
        assert(!has_id(r0, f.id));
        let p = |x: FanModel| norm(x) == norm(f);
        lemma_first_where_range(r0, p);
        let r = merge_duplicates(fans);
        assert forall|id: Seq<char>| has_id(f0, id) implies has_id(fans, id) by {
            let k = choose|k: int| 0 <= k < f0.len() && (#[trigger] f0[k]).id == id;
            assert(fans[k] == f0[k]);
        }
        match first_where(r0, p) {
            Some(j) => {
                assert forall|a: int| 0 <= a < r.len() implies (#[trigger] r[a]).id == r0[a].id by {
                }
                assert forall|i: int, j2: int| 0 <= i < j2 < r.len() implies (#[trigger] r[i]).id
                    != (#[trigger] r[j2]).id by {
                    assert(r[i].id == r0[i].id && r[j2].id == r0[j2].id);
                }
                assert forall|id: Seq<char>| #[trigger] has_id(r, id) implies has_id(fans, id) by {
                    let k = choose|k: int| 0 <= k < r.len() && (#[trigger] r[k]).id == id;
                    assert(r0[k].id == id);
                    assert(has_id(r0, id));
                }
            },
            None => {
                assert forall|i: int, j2: int| 0 <= i < j2 < r.len() implies (#[trigger] r[i]).id
                    != (#[trigger] r[j2]).id by {
                    if j2 == r0.len() {
                        assert(r[i] == r0[i]);
                    } else {
                        assert(r[i] == r0[i] && r[j2] == r0[j2]);
                    }
                }
                assert forall|id: Seq<char>| #[trigger] has_id(r, id) implies has_id(fans, id) by {
                    let k = choose|k: int| 0 <= k < r.len() && (#[trigger] r[k]).id == id;
                    if k == r0.len() {
                        assert(fans[fans.len() - 1].id == id);
                    } else {
                        assert(r0[k] == r[k]);
                        assert(has_id(r0, id));
                    }
                }
            },
        }
    }
}

/// Every fan is filed under an id of its own: no two fans of the result
/// have the same id.
pub proof fn law_fans_have_distinct_ids(chips: Seq<ChipModel>)
    ensures
        distinct_ids(interpret(chips)),
{
    let kid = |f: FanModel| f.id;
    let g = gather_chips(chips);
    lemma_gather_chips_ids(chips);
    lemma_attach_temps_ids(g.fans, g.temps);
    let merged = merge_duplicates(attach_temps(g.fans, g.temps));
    lemma_merge_duplicates_ids(attach_temps(g.fans, g.temps));
    let st = pwm_fold(merged, g.chips, merged.len());
    lemma_pwm_fold_len(merged, g.chips, merged.len());
    assert(distinct_by(st.0, kid)) by {
        assert forall|a: int, b: int| 0 <= a < b < st.0.len() implies kid(#[trigger] st.0[a])
            != kid(#[trigger] st.0[b]) by {
            assert(st.0[a].id == merged[a].id);
            assert(st.0[b].id == merged[b].id);
        }
    }
    lemma_kept_distinct_by(st.0, st.1, kid);
    let folded = merge_pwm(merged, g.chips);
    lemma_filter_distinct_by(folded, |f: FanModel| has_reading(f), kid);
    lemma_sort_distinct_by(with_readings(folded), kid);
    let out = interpret(chips);
    assert forall|a: int, b: int| 0 <= a < b < out.len() implies (#[trigger] out[a]).id != (
    #[trigger] out[b]).id by {
        assert(kid(out[a]) != kid(out[b]));
    }
}

/// The fans come out ordered by lowercase label (or id), so that a list
/// shown twice does not shuffle; they are exactly the merged fans that have
/// a speed or a duty reading, and so each of them has one.
pub proof fn law_fans_sorted_with_readings(chips: Seq<ChipModel>)
    ensures
        sorted_by_norm(interpret(chips)),
        interpret(chips).to_multiset() =~= with_readings(
            merge_pwm(
                merge_duplicates(attach_temps(gather_chips(chips).fans, gather_chips(chips).temps)),
                gather_chips(chips).chips,
            ),
        ).to_multiset(),
        forall|k: int| 0 <= k < interpret(chips).len() ==> #[trigger] has_reading(interpret(chips)[k]),
{
    broadcast use vstd::seq_lib::group_to_multiset_ensures;
    broadcast use vstd::seq_lib::group_filter_ensures;

    let g = gather_chips(chips);
    let w = with_readings(merge_pwm(merge_duplicates(attach_temps(g.fans, g.temps)), g.chips));
    lemma_sort_by_norm(w);
    let out = interpret(chips);
    assert forall|k: int| 0 <= k < out.len() implies #[trigger] has_reading(out[k]) by {
        assert(out.contains(out[k]));
        assert(out.to_multiset().count(out[k]) > 0);
        assert(w.contains(out[k]));
        let j = choose|j: int| 0 <= j < w.len() && w[j] == out[k];
        assert(has_reading(w[j]));
    }
}

fn sort_by_norm_exec(fans: Vec<Rec>) -> (r: Vec<Rec>)
    ensures
        recs_view(r@) == sort_by_norm(recs_view(fans@)),
{
    let ghost fv = recs_view(fans@);
    let n = fans.len();
    let mut out: Vec<Rec> = Vec::new();
    let mut keys: Vec<Vec<char>> = Vec::new();
    assert(recs_view(out@) =~= sort_by_norm(fv.take(0)));
    for i in 0..n
        invariant
            n == fans@.len(),
            fv == recs_view(fans@),
            recs_view(out@) == sort_by_norm(fv.take(i as int)),
            keys@.len() == out@.len(),
            forall|k: int| 0 <= k < out@.len() ==> (#[trigger] keys@[k])@ == norm(out@[k]@),
    {
        assert(fv.take(i + 1).drop_last() =~= fv.take(i as int));
        assert(fv.take(i + 1).last() == fans@[i as int]@);
        let f = rec_clone(&fans[i]);
        let kf = norm_exec(&f);
        let ghost ov = recs_view(out@);
        let ghost fm = f@;
        let mut p = out.len();
        assert(ov.take(p as int) =~= ov);
        assert(ov.skip(p as int) =~= Seq::<FanModel>::empty());
        while p > 0 && !chars_le(&keys[p - 1], &kf)
            invariant
                0 <= p <= out@.len(),
                ov == recs_view(out@),
                keys@.len() == out@.len(),
                forall|k: int| 0 <= k < out@.len() ==> (#[trigger] keys@[k])@ == norm(out@[k]@),
                kf@ == norm(fm),
                insert_by_norm(ov, fm) == insert_by_norm(ov.take(p as int), fm) + ov.skip(p as int),
            decreases p,
        {
            proof {
                let t = ov.take(p as int);
                assert(t.last() == ov[p - 1]);
                assert(ov[p - 1] == out@[p - 1]@);
                assert(t.drop_last() =~= ov.take(p - 1));
                assert(insert_by_norm(t, fm) == insert_by_norm(ov.take(p - 1), fm).push(ov[p - 1]));
                assert(ov.skip(p - 1) =~= seq![ov[p - 1]] + ov.skip(p as int));
                assert(insert_by_norm(ov.take(p - 1), fm).push(ov[p - 1]) + ov.skip(p as int)
                    =~= insert_by_norm(ov.take(p - 1), fm) + ov.skip(p - 1));
            }
            p -= 1;
        }
        proof {
            if p == 0 {
                assert(ov.take(0) =~= Seq::<FanModel>::empty());
            } else {
                assert(ov.take(p as int).last() == ov[p - 1]);
                assert(ov[p - 1] == out@[p - 1]@);
            }
            assert(insert_by_norm(ov, fm) =~= ov.take(p as int).push(fm) + ov.skip(p as int));
        }
        let ghost old_keys = keys@;
        let ghost old_out = out@;
        out.insert(p, f);
        keys.insert(p, kf);
        proof {
            assert(recs_view(out@) =~= ov.take(p as int).push(fm) + ov.skip(p as int));
            assert forall|k: int| 0 <= k < out@.len() implies (#[trigger] keys@[k])@ == norm(out@[k]@) by {
                if k < p {
                    assert(keys@[k] == old_keys[k]);
                    assert(out@[k] == old_out[k]);
                } else if k > p {
                    assert(keys@[k] == old_keys[k - 1]);
                    assert(out@[k] == old_out[k - 1]);
                }
            }
        }
    }
    assert(fv.take(n as int) =~= fv);
    out
}

/// The fans the sensor tree describes: its readings gathered by sensor,
/// temperatures attached to their fans, entries with the same name merged,
/// PWM-only entries folded into their fans, entries without a speed or duty
/// dropped, and the rest ordered by lowercase label (or id).
pub open spec fn interpret(chips: Seq<ChipModel>) -> Seq<FanModel> {
    let g = gather_chips(chips);
    let with_temps = attach_temps(g.fans, g.temps);
    let merged = merge_duplicates(with_temps);
    let folded = merge_pwm(merged, g.chips);
    sort_by_norm(with_readings(folded))
}

fn to_reading(r: &Rec) -> (f: FanReading)
    ensures
        f@ == r@,
{
    FanReading {
        id: string_of(&r.id),
        label: match &r.label {
            Some(l) => Some(string_of(l)),
            None => None,
        },
        rpm: r.rpm,
        duty: r.duty,
        temp: r.temp,
    }
}

/// The fans described by the sensor tree that `sensors -j` prints (see
/// [`interpret`]).
pub fn fans_from_sensor_chips(chips: &Vec<SensorChip>) -> (r: Vec<FanReading>)
    ensures
        fans_view(r@) == interpret(chips_view(chips@)),
{
    let mut g = gather_chips_exec(chips);
    attach_temps_exec(&mut g.fans, &g.temps);
    let merged = merge_duplicates_exec(&g.fans);
    let folded = merge_pwm_exec(&merged, &g.chips);
    let readings = with_readings_exec(folded);
    let sorted = sort_by_norm_exec(readings);
    let ghost sv = recs_view(sorted@);
    let n = sorted.len();
    let mut out: Vec<FanReading> = Vec::new();
    for i in 0..n
        invariant
            n == sorted@.len(),
            sv == recs_view(sorted@),
            fans_view(out@) == sv.take(i as int),
    {
        let ghost before = fans_view(out@);
        let fr = to_reading(&sorted[i]);
        out.push(fr);
        assert(sv[i as int] == sorted@[i as int]@);
        assert(fans_view(out@) =~= before.push(fr@));
        assert(fans_view(out@) =~= sv.take(i + 1));
    }
    assert(sv.take(n as int) =~= sv);
    out
}


// ---------------------------------------------------------------------------
// The JSON that `sensors -j` prints
// ---------------------------------------------------------------------------

#[verifier::external_type_specification]
#[verifier::external_body]
pub struct ExJsonError(serde_json::Error);

/// The sensor tree that JSON text (as bytes) describes, as `serde_json`
/// parses it into a `Value`: the top-level object's chips in the order of
/// its map, their sensors and fields, numbers as the bit patterns of their
/// `as_f64` values (0 for a number without one); `None` when the bytes are
/// not JSON.
pub uninterp spec fn sensor_json(bytes: Seq<u8>) -> Option<Seq<ChipModel>>;

/// `serde_json::from_slice` into a `Value`, then the value read as a sensor
/// tree, one JSON value for one tree value (a top-level value that is not
/// an object has no chips). The contract claims that the outcome is
/// [`sensor_json`] of the bytes: the tree exactly when the bytes parse.
#[verifier::external_body]
fn parse_sensor_tree(bytes: &[u8]) -> (r: Result<Vec<SensorChip>, serde_json::Error>)
    ensures
        r matches Ok(c) ==> sensor_json(bytes@) == Some(chips_view(c@)),
        r is Err ==> sensor_json(bytes@) is None,
{
    let leaf = |v| match v { Number(n) => FieldValue::Number(n.as_f64().unwrap_or_default().to_bits()),
        JsonText(t) => FieldValue::Text(t), _ => FieldValue::Other };
    Ok(match from_slice(bytes)? {
        Object(chips) => chips.into_iter().map(|(name, c)| SensorChip { name, entries: match c {
            Object(es) => Some(es.into_iter().map(|(key, e)| SensorEntry { key, value: match e {
                Object(fs) => SensorValue::Object(fs.into_iter().map(|(key, f)| SensorField { key, value: leaf(f) }).collect()),
                e => Leaf(leaf(e)) } }).collect()),
            _ => None } }).collect(),
        _ => vec![]
    })
}

/// Why the output of `sensors -j` could not be read.
#[derive(Debug)]
pub enum SensorsError {
    /// The text is not JSON.
    Json(serde_json::Error),
}

/// The fans that JSON text (as bytes) from `sensors -j` describes: an error
/// exactly when it is not JSON, else [`interpret`] of its sensor tree.
pub fn fans_from_json(bytes: &[u8]) -> (r: Result<Vec<FanReading>, SensorsError>)
    ensures
        r is Ok <==> sensor_json(bytes@) is Some,
        r matches Ok(f) ==> fans_view(f@) == interpret(sensor_json(bytes@)->0),
{
    match parse_sensor_tree(bytes) {
        Ok(chips) => Ok(fans_from_sensor_chips(&chips)),
        Err(e) => Err(SensorsError::Json(e)),
    }
}

/// The fans that `sensors -j` JSON text describes (see [`fans_from_json`]).
pub fn parse_lmsensors_json(input: &str) -> (r: Result<Vec<FanReading>, SensorsError>)
    ensures
        r is Ok <==> sensor_json(input.spec_bytes()) is Some,
        r matches Ok(f) ==> fans_view(f@) == interpret(sensor_json(input.spec_bytes())->0),
{
    fans_from_json(input.as_bytes())
}

// ---------------------------------------------------------------------------
// hwmon files
// ---------------------------------------------------------------------------

pub open spec fn ends_with(s: Seq<char>, p: Seq<char>) -> bool {
    p.len() <= s.len() && s.skip(s.len() - p.len()) == p
}

fn ends_with_chars(s: &[char], p: &[char]) -> (r: bool)
    ensures
        r == ends_with(s@, p@),
{
    if p.len() > s.len() {
        return false;
    }
    let k = s.len() - p.len();
    let tail = slice_range(s, k, s.len());
    assert(tail@ =~= s@.skip(k as int));
    chars_eq(&tail, p)
}

/// A hwmon file holding a fan speed: `fan*_input`.
pub fn is_fan_input_name(name: &str) -> (r: bool)
    ensures
        r == (starts_with(name@, "fan"@) && ends_with(name@, "_input"@)),
{
    let v = chars_of(name);
    starts_with_chars(&v, &chars_of("fan")) && ends_with_chars(&v, &chars_of("_input"))
}

/// A hwmon file holding a temperature: `temp*_input`.
pub fn is_temp_input_name(name: &str) -> (r: bool)
    ensures
        r == (starts_with(name@, "temp"@) && ends_with(name@, "_input"@)),
{
    let v = chars_of(name);
    starts_with_chars(&v, &chars_of("temp")) && ends_with_chars(&v, &chars_of("_input"))
}

/// Index of the first occurrence of `p` in `s` at or after `i`, if any.
pub open spec fn find_seq_from(s: Seq<char>, p: Seq<char>, i: int) -> Option<int>
    decreases s.len() + 1 - i,
{
    if i < 0 || i + p.len() > s.len() {
        None
    } else if crate::text::occurs_at(s, p, i) {
        Some(i)
    } else {
        find_seq_from(s, p, i + 1)
    }
}

/// The PWM file next to a fan file: the first `_input` replaced by `_pwm`
/// (`str::replacen("_input", "_pwm", 1)`).
pub open spec fn pwm_name_of(name: Seq<char>) -> Seq<char> {
    match find_seq_from(name, "_input"@, 0) {
        Some(k) => name.take(k) + "_pwm"@ + name.skip(k + 6),
        None => name,
    }
}

pub fn pwm_file_name(name: &str) -> (r: String)
    ensures
        r@ == pwm_name_of(name@),
{
    let v = chars_of(name);
    let pat = chars_of("_input");
    proof {
        reveal_strlit("_input");
    }
    let n = v.len();
    let mut i: usize = 0;
    while i < n && n - i >= 6
        invariant
            n == v@.len(),
            v@ == name@,
            pat@ == "_input"@,
            pat@.len() == 6,
            find_seq_from(v@, pat@, i as int) == find_seq_from(v@, pat@, 0),
        decreases n - i,
    {
        if crate::text::occurs_at_exec(&v, &pat, i) {
            let mut out = string_of(&slice_range(&v, 0, i));
            push_chars(&mut out, &chars_of("_pwm"));
            push_chars(&mut out, &slice_range(&v, i + 6, n));
            assert(v@.subrange(i + 6, n as int) =~= v@.skip(i + 6));
            assert(v@.subrange(0, i as int) =~= v@.take(i as int));
            assert(find_seq_from(v@, pat@, i as int) == Some(i as int));
            assert(find_seq_from(v@, "_input"@, 0) == Some(i as int));
            assert(out@ =~= v@.take(i as int) + "_pwm"@ + v@.skip(i + 6));
            return out;
        }
        i += 1;
    }
    string_of(&v)
}

/// The duty in percent for a PWM value: values above 100 are taken to be on
/// the 0..=255 scale and converted with rounding; others are percentages
/// already. A duty is a percentage, so it never exceeds 100.
pub open spec fn duty_percent(pwm: u32) -> u8 {
    if pwm > 100 {
        let v = (pwm as int * 200 + 255) / 510;
        if v > 100 {
            100
        } else {
            v as u8
        }
    } else {
        pwm as u8
    }
}

pub fn pwm_to_duty(pwm: u32) -> (r: u8)
    ensures
        r == duty_percent(pwm),
{
    if pwm > 100 {
        let v: u64 = ((pwm as u64) * 200 + 255) / 510;
        if v > 100 {
            100
        } else {
            v as u8
        }
    } else {
        pwm as u8
    }
}

/// A fan's duty is a percentage in 0..=100, and a PWM value of at most 100
/// is taken as the percentage itself.
pub proof fn law_duty_is_percent(pwm: u32)
    ensures
        duty_percent(pwm) <= 100,
        pwm <= 100 ==> duty_percent(pwm) == pwm,
{
}

/// The word a temperature key names its fan by: the key lowercased, with
/// "fan", "temp", "pwm" and "adapter" taken out, `':'` made a space, and
/// trimmed.
pub open spec fn temperature_word(key: Seq<char>) -> Seq<char> {
    trim(
        replace_char(
            remove_all(
                remove_all(remove_all(remove_all(lowercase(key), "fan"@), "temp"@), "pwm"@),
                "adapter"@,
            ),
            ':',
            ' ',
        ),
    )
}

/// Whether a fan's lowercase label or lowercase id contains `w`.
pub open spec fn fan_mentions(f: FanModel, w: Seq<char>) -> bool {
    (f.label matches Some(l) && contains_seq(lowercase(l), w)) || contains_seq(lowercase(f.id), w)
}

/// `p` is the position of the first `':'` in `key`.
pub open spec fn first_colon_at(key: Seq<char>, p: int) -> bool {
    0 <= p < key.len() && key[p] == ':' && forall|j: int| 0 <= j < p ==> key[j] != ':'
}

/// Some fan mentions the (non-empty) word of `key`.
pub open spec fn word_has_fan(fans: Seq<FanModel>, key: Seq<char>) -> bool {
    temperature_word(key).len() > 0 && exists|k: int|
        0 <= k < fans.len() && fan_mentions(#[trigger] fans[k], temperature_word(key))
}

/// Some fan's id starts with the chip part of `key` (before its first `':'`).
pub open spec fn chip_has_fan(fans: Seq<FanModel>, key: Seq<char>) -> bool {
    exists|p: int, k: int|
        #![trigger first_colon_at(key, p), fans[k]]
        first_colon_at(key, p) && 0 <= k < fans.len() && starts_with(fans[k].id, key.take(p))
}

proof fn lemma_find_from_first(s: Seq<char>, c: char, i: int)
    requires
        0 <= i,
    ensures
        find_from(s, c, i) matches Some(q) ==> i <= q < s.len() && s[q] == c && forall|j: int|
            i <= j < q ==> s[j] != c,
        find_from(s, c, i) is None ==> forall|j: int| i <= j < s.len() ==> s[j] != c,
    decreases s.len() - i,
{
    if i < s.len() && s[i] != c {
        lemma_find_from_first(s, c, i + 1);
    }
}

/// A temperature read under `key` goes to a fan whose lowercase label or id
/// contains the key's word, when the word is not empty and such a fan
/// exists; else to a fan whose id starts with the key's chip part, when the
/// key has one and such a fan exists; else it is filed as a fan of its own
/// under `key` (in place of a fan with that id, if there is one). Either way
/// every other fan stays as it was.
pub proof fn law_temperature_goes_to_its_fan(fans: Seq<FanModel>, key: Seq<char>, t: u64)
    ensures
        word_has_fan(fans, key) ==> exists|k: int|
            0 <= k < fans.len() && fan_mentions(#[trigger] fans[k], temperature_word(key))
                && attach_temp(fans, key, t) == fans.update(k, FanModel { temp: Some(t), ..fans[k] }),
        !word_has_fan(fans, key) && chip_has_fan(fans, key) ==> exists|p: int, k: int|
            #![trigger first_colon_at(key, p), fans[k]]
            first_colon_at(key, p) && 0 <= k < fans.len() && starts_with(fans[k].id, key.take(p))
                && attach_temp(fans, key, t) == fans.update(k, FanModel { temp: Some(t), ..fans[k] }),
        !word_has_fan(fans, key) && !chip_has_fan(fans, key) ==> (exists|k: int|
            0 <= k < fans.len() && (#[trigger] fans[k]).id == key && attach_temp(fans, key, t)
                == fans.update(
                k,
                (FanModel { id: key, label: None, rpm: None, duty: None, temp: Some(t) }),
            )) || attach_temp(fans, key, t) == fans.push(
            (FanModel { id: key, label: None, rpm: None, duty: None, temp: Some(t) }),
        ),
{
    let w = temp_base(key);
    assert(temperature_word(key) == w);
    let pb = |f: FanModel| matches_base(f, w);
    lemma_first_where_range(fans, pb);
    lemma_first_where_none(fans, pb);
    assert forall|f: FanModel| fan_mentions(f, w) <==> #[trigger] matches_base(f, w) by {
    }
    if word_has_fan(fans, key) {
        let k0 = choose|k: int| 0 <= k < fans.len() && fan_mentions(#[trigger] fans[k], w);
        assert(pb(fans[k0]));
        let k = first_where(fans, pb)->0;
        assert(pb(fans[k]));
        assert(temp_owner(fans, key) == Some(k));
    } else {
        if w.len() > 0 {
            if first_where(fans, pb) is Some {
                let k = first_where(fans, pb)->0;
                assert(pb(fans[k]));
                assert(fan_mentions(fans[k], w));
            }
        }
        lemma_find_from_first(key, ':', 0);
        if chip_has_fan(fans, key) {
            let (p, k0) = choose|p: int, k: int|
                #![trigger first_colon_at(key, p), fans[k]]
                first_colon_at(key, p) && 0 <= k < fans.len() && starts_with(fans[k].id, key.take(p));
            let q = find_from(key, ':', 0)->0;
            assert(find_from(key, ':', 0) is Some) by {
                if find_from(key, ':', 0) is None {
                    assert(key[p] != ':');
                }
            }
            assert(q == p) by {
                if q < p {
                    assert(key[q] != ':');
                } else if q > p {
                    assert(key[p] != ':');
                }
            }
            let pc = |f: FanModel| starts_with(f.id, key.take(p));
            lemma_first_where_range(fans, pc);
            lemma_first_where_none(fans, pc);
            assert(pc(fans[k0]));
            let k = first_where(fans, pc)->0;
            assert(pc(fans[k]));
            assert(first_colon_at(key, p));
            assert(temp_owner(fans, key) == Some(k));
        } else {
            if let Some(q) = find_from(key, ':', 0) {
                assert(first_colon_at(key, q));
                let pc = |f: FanModel| starts_with(f.id, key.take(q));
                lemma_first_where_range(fans, pc);
                if first_where(fans, pc) is Some {
                    let k = first_where(fans, pc)->0;
                    assert(pc(fans[k]));
                    assert(first_colon_at(key, q) && 0 <= k < fans.len() && starts_with(
                        fans[k].id,
                        key.take(q),
                    ));
                }
            }
            assert(temp_owner(fans, key) is None);
            lemma_find_fan(fans, key);
            let lone = FanModel { id: key, label: None, rpm: None, duty: None, temp: Some(t) };
            assert(FanModel { temp: Some(t), ..new_fan(key, None) } == lone);
            if let Some(k) = find_fan(fans, key) {
                assert(fans[k].id == key);
                assert(attach_temp(fans, key, t) == fans.update(k, lone));
            }
        }
    }
}

} // verus!
