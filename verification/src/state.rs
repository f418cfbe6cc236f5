//! The mock device: what the editor shows when "Daisy Mock Device" is picked
//! instead of a real port. It keeps two profiles of eight banks and one set
//! of settings in memory and answers requests from them.
use vstd::prelude::*;
use crate::midi::protocol::banks_view;
use crate::midi::types::{
    decimal, default_bank, default_preset, push_decimal, Bank, BankView, DeviceInfo,
    DeviceInfoView, DeviceSettings, Preset, PresetView, SettingsView,
};

verus! {

pub const MOCK_DEVICE_NAME: &'static str = "Daisy Mock Device";
pub const MOCK_PROFILE_COUNT: usize = 2;

/// Names of the eight mock banks in the first profile.
pub const MOCK_BANK_NAMES: [&'static str; 8] = [
    "Overdrives",
    "Modulation",
    "Delays",
    "Reverbs",
    "Utilities",
    "Bank 6",
    "Bank 7",
    "Bank 8",
];

/// Preset templates: 16 for each of the first five banks (page by page),
/// then 4 for each of the last three banks, shared by all their pages.
pub const MOCK_PRESET_NAMES: [&'static str; 92] = [
    "Tube Scream",
    "Blues OD",
    "Rat",
    "Klone",
    "Big Muff",
    "Fuzz Face",
    "Tonebender",
    "Velvet",
    "Boost",
    "Clean Boost",
    "EP Boost",
    "LPB-1",
    "Compressor",
    "Sustain",
    "Squeeze",
    "Optical",
    "Chorus",
    "Ensemble",
    "CE-1",
    "Flanger",
    "Phaser",
    "Phase 90",
    "Bi-Phase",
    "Small Stone",
    "Tremolo",
    "Vibrato",
    "UniVibe",
    "Rotary",
    "Ring Mod",
    "Pitch Shift",
    "Whammy",
    "Harmonist",
    "Digital Delay",
    "Analog Delay",
    "Tape Echo",
    "Reverse",
    "Slapback",
    "Ping Pong",
    "Multi-Tap",
    "Looper",
    "Shimmer",
    "Modulated",
    "Ducked",
    "Dotted 8th",
    "Quarter",
    "8th Note",
    "Triplet",
    "Half Note",
    "Hall",
    "Room",
    "Plate",
    "Spring",
    "Shimmer Rev",
    "Bloom",
    "Cathedral",
    "Cavern",
    "Ambient",
    "Swell",
    "Freeze",
    "Sustain",
    "Church",
    "Stadium",
    "Garage",
    "Bathroom",
    "Tuner",
    "Mute",
    "Kill Dry",
    "Blend",
    "Tap Tempo",
    "Clock",
    "MIDI Sync",
    "BPM Set",
    "Bank Up",
    "Bank Dn",
    "Page Up",
    "Page Dn",
    "Loop Rec",
    "Loop Play",
    "Loop Dub",
    "Loop Stop",
    "Preset 1",
    "Preset 2",
    "Preset 3",
    "Preset 4",
    "Preset 1",
    "Preset 2",
    "Preset 3",
    "Preset 4",
    "Preset 1",
    "Preset 2",
    "Preset 3",
    "Preset 4",
];

pub const MOCK_PRESET_COLORS: [[u8; 3]; 92] = [
    [255, 80, 0],
    [255, 140, 0],
    [200, 40, 0],
    [180, 160, 0],
    [160, 0, 200],
    [120, 0, 180],
    [100, 0, 160],
    [80, 0, 140],
    [0, 180, 60],
    [0, 200, 80],
    [0, 160, 40],
    [0, 140, 20],
    [0, 100, 200],
    [0, 80, 180],
    [0, 60, 160],
    [0, 40, 140],
    [0, 160, 200],
    [0, 140, 180],
    [0, 120, 160],
    [0, 100, 140],
    [200, 0, 160],
    [180, 0, 140],
    [160, 0, 120],
    [140, 0, 100],
    [200, 160, 0],
    [180, 140, 0],
    [160, 120, 0],
    [140, 100, 0],
    [0, 200, 120],
    [0, 180, 100],
    [0, 160, 80],
    [0, 140, 60],
    [0, 120, 220],
    [0, 100, 200],
    [0, 80, 180],
    [0, 60, 160],
    [220, 120, 0],
    [200, 100, 0],
    [180, 80, 0],
    [160, 60, 0],
    [160, 0, 220],
    [140, 0, 200],
    [120, 0, 180],
    [100, 0, 160],
    [0, 220, 160],
    [0, 200, 140],
    [0, 180, 120],
    [0, 160, 100],
    [80, 80, 220],
    [60, 60, 200],
    [40, 40, 180],
    [20, 20, 160],
    [200, 80, 80],
    [180, 60, 60],
    [160, 40, 40],
    [140, 20, 20],
    [80, 200, 80],
    [60, 180, 60],
    [40, 160, 40],
    [20, 140, 20],
    [200, 200, 80],
    [180, 180, 60],
    [160, 160, 40],
    [140, 140, 20],
    [200, 200, 200],
    [100, 100, 100],
    [80, 80, 80],
    [60, 60, 60],
    [0, 200, 200],
    [0, 180, 180],
    [0, 160, 160],
    [0, 140, 140],
    [0, 200, 0],
    [200, 0, 0],
    [0, 180, 0],
    [180, 0, 0],
    [200, 0, 200],
    [180, 0, 180],
    [160, 0, 160],
    [140, 0, 140],
    [100, 100, 200],
    [80, 80, 180],
    [60, 60, 160],
    [40, 40, 140],
    [200, 100, 100],
    [180, 80, 80],
    [160, 60, 60],
    [140, 40, 40],
    [100, 200, 100],
    [80, 180, 80],
    [60, 160, 60],
    [40, 140, 40],
];

/// Template of the preset at `page`, `sw` of mock bank `bank`.
pub open spec fn mock_template_index(bank: int, page: int, sw: int) -> int {
    if bank < 5 {
        16 * bank + 4 * page + sw
    } else {
        80 + 4 * (bank - 5) + sw
    }
}

/// A preset with only a name and a position-1 colour; its position-2 colour
/// is a third of it.
pub open spec fn make_preset_spec(name: Seq<char>, r: u8, g: u8, b: u8) -> PresetView {
    PresetView {
        name,
        color_pos1: seq![r, g, b],
        color_pos2: seq![(r / 3) as u8, (g / 3) as u8, (b / 3) as u8],
        ..default_preset()
    }
}

fn make_preset(name: &str, r: u8, g: u8, b: u8) -> (p: Preset)
    ensures
        p@ == make_preset_spec(name@, r, g, b),
{
    let mut p = Preset::default();
    p.name = name.to_owned();
    p.color_pos1 = [r, g, b];
    p.color_pos2 = [r / 3, g / 3, b / 3];
    assert(p@.color_pos1 =~= seq![r, g, b]);
    assert(p@.color_pos2 =~= seq![(r / 3) as u8, (g / 3) as u8, (b / 3) as u8]);
    p
}

/// Name of mock bank `i` in `profile`: its template name in the first
/// profile, "B N" (N counted from one) in the others.
pub open spec fn mock_bank_name(profile: u8, i: int) -> Seq<char> {
    if profile == 0 {
        MOCK_BANK_NAMES[i]@
    } else {
        seq!['B', ' '] + decimal((i + 1) as nat)
    }
}

/// The preset at `page`, `sw` of mock bank `i`.
pub open spec fn mock_preset(i: int, page: int, sw: int) -> PresetView {
    let t = mock_template_index(i, page, sw);
    make_preset_spec(
        MOCK_PRESET_NAMES[t]@,
        MOCK_PRESET_COLORS[t][0],
        MOCK_PRESET_COLORS[t][1],
        MOCK_PRESET_COLORS[t][2],
    )
}

/// Mock bank `i` of `profile`.
pub open spec fn mock_bank(profile: u8, i: int) -> BankView {
    BankView {
        name: mock_bank_name(profile, i),
        presets: Seq::new(4, |page: int| Seq::new(4, |sw: int| mock_preset(i, page, sw))),
        ..default_bank()
    }
}

fn mock_row(i: usize, page: usize) -> (row: [Preset; 4])
    requires
        i < 8,
        page < 4,
    ensures
        row@.map_values(|p: Preset| p@) == Seq::new(
            4,
            |sw: int| mock_preset(i as int, page as int, sw),
        ),
{
    let base: usize = if i < 5 { 16 * i + 4 * page } else { 80 + 4 * (i - 5) };
    let c0 = MOCK_PRESET_COLORS[base];
    let c1 = MOCK_PRESET_COLORS[base + 1];
    let c2 = MOCK_PRESET_COLORS[base + 2];
    let c3 = MOCK_PRESET_COLORS[base + 3];
    let row = [
        make_preset(MOCK_PRESET_NAMES[base], c0[0], c0[1], c0[2]),
        make_preset(MOCK_PRESET_NAMES[base + 1], c1[0], c1[1], c1[2]),
        make_preset(MOCK_PRESET_NAMES[base + 2], c2[0], c2[1], c2[2]),
        make_preset(MOCK_PRESET_NAMES[base + 3], c3[0], c3[1], c3[2]),
    ];
    assert(row@.map_values(|p: Preset| p@) =~= Seq::new(
        4,
        |sw: int| mock_preset(i as int, page as int, sw),
    ));
    row
}

fn mock_bank_at(profile: u8, i: usize) -> (b: Bank)
    requires
        i < 8,
    ensures
        b@ == mock_bank(profile, i as int),
{
    let name = if profile == 0 {
        MOCK_BANK_NAMES[i].to_owned()
    } else {
        let mut s = String::from_str("B ");
        proof {
            reveal_strlit("B ");
            assert(s@ =~= seq!['B', ' ']);
        }
        push_decimal(&mut s, i + 1);
        s
    };
    let mut b = Bank::default();
    b.name = name;
    b.presets = [mock_row(i, 0), mock_row(i, 1), mock_row(i, 2), mock_row(i, 3)];
    assert(b@.presets =~= mock_bank(profile, i as int).presets);
    b
}

/// The eight mock banks of `profile`.
pub fn make_mock_banks(profile: u8) -> (banks: Vec<Bank>)
    ensures
        banks_view(banks@) == Seq::new(8, |i: int| mock_bank(profile, i)),
{
    let mut banks: Vec<Bank> = Vec::new();
    let mut i: usize = 0;
    while i < 8
        invariant
            i <= 8,
            banks@.len() == i,
            forall|j: int| 0 <= j < i ==> #[trigger] banks@[j]@ == mock_bank(profile, j),
        decreases 8 - i,
    {
        banks.push(mock_bank_at(profile, i));
        i = i + 1;
    }
    assert(banks_view(banks@) =~= Seq::new(8, |i: int| mock_bank(profile, i)));
    banks
}

/// What the mock device sends as a backup image: "DAISY_MOCK_BACKUP_V1".
pub const MOCK_BACKUP: [u8; 20] = [68, 65, 73, 83, 89, 95, 77, 79, 67, 75, 95, 66, 65, 67, 75, 85, 80, 95, 86, 49];

/// Models of the banks of every profile.
pub open spec fn profiles_view(v: Seq<Vec<Bank>>) -> Seq<Seq<BankView>> {
    v.map_values(|r: Vec<Bank>| banks_view(r@))
}

/// The bank at `profile`, `index`, if there is one.
pub open spec fn mock_get(banks: Seq<Seq<BankView>>, profile: int, index: int) -> Option<BankView> {
    if 0 <= profile < banks.len() && 0 <= index < banks[profile].len() {
        Some(banks[profile][index])
    } else {
        None
    }
}

/// `banks` with the bank at `profile`, `index` replaced by `b`; unchanged
/// when there is no such bank.
pub open spec fn mock_set(banks: Seq<Seq<BankView>>, profile: int, index: int, b: BankView) -> Seq<
    Seq<BankView>,
> {
    if 0 <= profile < banks.len() && 0 <= index < banks[profile].len() {
        banks.update(profile, banks[profile].update(index, b))
    } else {
        banks
    }
}

/// Reading a bank back after writing it gives what was written; every other
/// bank is unaffected, and a write where there is no bank changes nothing.
pub proof fn lemma_mock_read_after_write(
    banks: Seq<Seq<BankView>>,
    p: int,
    i: int,
    b: BankView,
    q: int,
    j: int,
)
    ensures
        mock_get(mock_set(banks, p, i, b), q, j) == (if q == p && j == i && mock_get(
            banks,
            p,
            i,
        ) is Some {
            Some(b)
        } else {
            mock_get(banks, q, j)
        }),
{
}

/// The settings of a fresh mock device.
pub open spec fn mock_settings_spec() -> SettingsView {
    SettingsView {
        brightness: 80,
        startup_bank: 0,
        startup_profile: 0,
        midi_thru_usb: 0,
        midi_thru_trs: 0,
        relay_contact: seq![0u8, 0u8],
        recall_toggle: false,
        device_name: seq!['D', 'a', 'i', 's', 'y', ' ', 'M', 'o', 'c', 'k'],
    }
}

/// The in-memory device behind "Daisy Mock Device".
pub struct MockDevice {
    pub banks: Vec<Vec<Bank>>,
    pub settings: DeviceSettings,
}

impl MockDevice {
    /// Models of the banks of every profile.
    pub open spec fn banks_model(&self) -> Seq<Seq<BankView>> {
        profiles_view(self.banks@)
    }

    /// Two profiles of mock banks and the mock settings.
    pub fn new() -> (m: Self)
        ensures
            m.banks_model() == Seq::new(
                MOCK_PROFILE_COUNT as nat,
                |p: int| Seq::new(8, |i: int| mock_bank(p as u8, i)),
            ),
            m.settings@ == mock_settings_spec(),
    {
        let mut banks: Vec<Vec<Bank>> = Vec::new();
        let mut p: usize = 0;
        while p < MOCK_PROFILE_COUNT
            invariant
                p <= MOCK_PROFILE_COUNT,
                banks@.len() == p,
                forall|q: int| 0 <= q < p ==> #[trigger] banks_view(banks@[q]@) == Seq::new(
                    8,
                    |i: int| mock_bank(q as u8, i),
                ),
            decreases MOCK_PROFILE_COUNT - p,
        {
            banks.push(make_mock_banks(p as u8));
            p = p + 1;
        }
        let mut settings = DeviceSettings::default();
        settings.brightness = 80;
        settings.device_name = String::from_str("Daisy Mock");
        proof {
            reveal_strlit("Daisy Mock");
            assert(settings.device_name@ =~= seq!['D', 'a', 'i', 's', 'y', ' ', 'M', 'o', 'c', 'k']);
            assert(settings.relay_contact@ =~= seq![0u8, 0u8]);
        }
        let m = MockDevice { banks, settings };
        assert(m.banks_model() =~= Seq::new(
            MOCK_PROFILE_COUNT as nat,
            |p: int| Seq::new(8, |i: int| mock_bank(p as u8, i)),
        ));
        assert(m.settings@ =~= mock_settings_spec());
        m
    }

    /// What the mock device reports about itself: firmware 1.0.0, "Daisy Mock".
    pub fn device_info() -> (info: DeviceInfo)
        ensures
            info@ == (DeviceInfoView {
                firmware_major: 1,
                firmware_minor: 0,
                firmware_patch: 0,
                device_name: seq!['D', 'a', 'i', 's', 'y', ' ', 'M', 'o', 'c', 'k'],
            }),
    {
        let name = String::from_str("Daisy Mock");
        proof {
            reveal_strlit("Daisy Mock");
            assert(name@ =~= seq!['D', 'a', 'i', 's', 'y', ' ', 'M', 'o', 'c', 'k']);
        }
        DeviceInfo { firmware_major: 1, firmware_minor: 0, firmware_patch: 0, device_name: name }
    }

    pub fn get_settings(&self) -> (s: DeviceSettings)
        ensures
            s@ == self.settings@,
    {
        self.settings.copy()
    }

    pub fn set_settings(&mut self, settings: DeviceSettings)
        ensures
            final(self).settings@ == settings@,
            final(self).banks_model() == old(self).banks_model(),
    {
        self.settings = settings;
    }

    /// The bank at `profile`, `bank_index`; `None` when there is none.
    pub fn get_bank(&self, profile: u8, bank_index: u8) -> (r: Option<Bank>)
        ensures
            match r {
                Some(b) => mock_get(self.banks_model(), profile as int, bank_index as int) == Some(
                    b@,
                ),
                None => mock_get(self.banks_model(), profile as int, bank_index as int) is None,
            },
    {
        let p = profile as usize;
        let i = bank_index as usize;
        if p < self.banks.len() && i < self.banks[p].len() {
            Some(self.banks[p][i].copy())
        } else {
            None
        }
    }

    /// Replace the bank at `profile`, `bank_index`; nothing happens when
    /// there is none.
    pub fn set_bank(&mut self, profile: u8, bank_index: u8, bank: Bank)
        ensures
            final(self).banks_model() == mock_set(
                old(self).banks_model(),
                profile as int,
                bank_index as int,
                bank@,
            ),
            final(self).settings@ == old(self).settings@,
    {
        let p = profile as usize;
        let i = bank_index as usize;
        if p < self.banks.len() && i < self.banks[p].len() {
            let ghost old_model = self.banks_model();
            let ghost old_banks = self.banks@;
            let ghost bv = bank@;
            let mut row = self.banks.remove(p);
            let ghost old_row = row@;
            row.set(i, bank);
            assert(banks_view(row@) =~= banks_view(old_row).update(i as int, bv));
            self.banks.insert(p, row);
            assert(self.banks@ =~= old_banks.update(p as int, row));
            assert(self.banks_model() =~= mock_set(old_model, p as int, i as int, bv));
        }
    }

    /// Every bank of `profile`; none when there is no such profile.
    pub fn get_all_banks(&self, profile: u8) -> (banks: Vec<Bank>)
        ensures
            banks_view(banks@) == (if (profile as int) < self.banks_model().len() {
                self.banks_model()[profile as int]
            } else {
                Seq::<BankView>::empty()
            }),
    {
        let p = profile as usize;
        let mut out: Vec<Bank> = Vec::new();
        if p < self.banks.len() {
            let row = &self.banks[p];
            let n = row.len();
            let mut i: usize = 0;
            while i < n
                invariant
                    n == row@.len(),
                    i <= n,
                    out@.len() == i,
                    forall|j: int| 0 <= j < i ==> #[trigger] out@[j]@ == row@[j]@,
                decreases n - i,
            {
                out.push(row[i].copy());
                i = i + 1;
            }
            assert(banks_view(out@) =~= banks_view(row@));
        } else {
            assert(banks_view(out@) =~= Seq::<BankView>::empty());
        }
        out
    }

    /// The mock backup image.
    pub fn backup() -> (image: Vec<u8>)
        ensures
            image@ == MOCK_BACKUP@,
    {
        let mut image: Vec<u8> = Vec::new();
        let mut i: usize = 0;
        while i < 20
            invariant
                i <= 20,
                image@ == MOCK_BACKUP@.take(i as int),
            decreases 20 - i,
        {
            image.push(MOCK_BACKUP[i]);
            i = i + 1;
            assert(image@ =~= MOCK_BACKUP@.take(i as int));
        }
        assert(MOCK_BACKUP@.take(20) =~= MOCK_BACKUP@);
        image
    }
}

} // verus!
