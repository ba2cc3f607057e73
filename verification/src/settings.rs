//! Settings files: TOML as plain values.

use vstd::prelude::*;
use toml::Value;
use toml::Value::{Array, Boolean, Datetime, Float, Integer};
use crate::text::same;

verus! {

/// A value inside a table. Of the kinds that no setting takes only the kind is
/// kept.
#[derive(Debug)]
pub enum Leaf {
    Text(String),
    Integer(i64),
    Float,
    Boolean,
    Moment,
    List,
    Table,
}

/// A value at the top of a file.
#[derive(Debug)]
pub enum Setting {
    Leaf(Leaf),
    Table(Vec<(String, Leaf)>),
}

#[verifier::ext_equal]
pub enum LeafView {
    Text(Seq<char>),
    Integer(i64),
    Float,
    Boolean,
    Moment,
    List,
    Table,
}

#[verifier::ext_equal]
pub enum SettingView {
    Leaf(LeafView),
    Table(Seq<(Seq<char>, LeafView)>),
}

impl View for Leaf {
    type V = LeafView;

    open spec fn view(&self) -> LeafView {
        match *self {
            Leaf::Text(s) => LeafView::Text(s@),
            Leaf::Integer(n) => LeafView::Integer(n),
            Leaf::Float => LeafView::Float,
            Leaf::Boolean => LeafView::Boolean,
            Leaf::Moment => LeafView::Moment,
            Leaf::List => LeafView::List,
            Leaf::Table => LeafView::Table,
        }
    }
}

pub open spec fn leaf_views(s: Seq<(String, Leaf)>) -> Seq<(Seq<char>, LeafView)> {
    s.map_values(|p: (String, Leaf)| (p.0@, p.1@))
}

impl View for Setting {
    type V = SettingView;

    open spec fn view(&self) -> SettingView {
        match *self {
            Setting::Leaf(l) => SettingView::Leaf(l@),
            Setting::Table(t) => SettingView::Table(leaf_views(t@)),
        }
    }
}

pub open spec fn setting_views(s: Seq<(String, Setting)>) -> Seq<(Seq<char>, SettingView)> {
    s.map_values(|p: (String, Setting)| (p.0@, p.1@))
}

/// The settings a TOML text holds, or what is wrong with it.
pub uninterp spec fn parsed_toml(text: Seq<char>) -> Result<
    Seq<(Seq<char>, SettingView)>,
    Seq<char>,
>;

pub open spec fn settings_result(r: Result<Vec<(String, Setting)>, String>) -> Result<
    Seq<(Seq<char>, SettingView)>,
    Seq<char>,
> {
    match r {
        Ok(v) => Ok(setting_views(v@)),
        Err(e) => Err(e@),
    }
}

/// `toml::Table` as its `FromStr` reads it, with the values taken over one by
/// one down to the second level. Claims that the settings, or the message of the
/// error, depend on the text alone.
#[verifier::external_body]
pub(crate) fn parse_toml(text: &str) -> (r: Result<Vec<(String, Setting)>, String>)
    ensures
        settings_result(r) == parsed_toml(text@),
{
    let table = text.parse::<toml::Table>().map_err(|e| e.to_string())?;
    let leaf = |v: Value| match v {
        Value::String(s) => Leaf::Text(s),
        Integer(n) => Leaf::Integer(n),
        Float(_) => Leaf::Float,
        Boolean(_) => Leaf::Boolean,
        Datetime(_) => Leaf::Moment,
        Array(_) => Leaf::List,
        Value::Table(_) => Leaf::Table,
    };
    Ok(table.into_iter().map(|(k, v)| (k, match v {
        Value::Table(t) => Setting::Table(t.into_iter().map(|(k, v)| (k, leaf(v))).collect()),
        other => Setting::Leaf(leaf(other)),
    })).collect())
}

/// The first value of that name from `i` on.
pub open spec fn setting_from(
    s: Seq<(Seq<char>, SettingView)>,
    name: Seq<char>,
    i: int,
) -> Option<SettingView>
    decreases s.len() - i,
{
    if i < 0 || i >= s.len() {
        None
    } else if s[i].0 == name {
        Some(s[i].1)
    } else {
        setting_from(s, name, i + 1)
    }
}

pub open spec fn setting_of(s: Seq<(Seq<char>, SettingView)>, name: Seq<char>) -> Option<SettingView> {
    setting_from(s, name, 0)
}

pub open spec fn leaf_from(s: Seq<(Seq<char>, LeafView)>, name: Seq<char>, i: int) -> Option<LeafView>
    decreases s.len() - i,
{
    if i < 0 || i >= s.len() {
        None
    } else if s[i].0 == name {
        Some(s[i].1)
    } else {
        leaf_from(s, name, i + 1)
    }
}

pub open spec fn leaf_of(s: Seq<(Seq<char>, LeafView)>, name: Seq<char>) -> Option<LeafView> {
    leaf_from(s, name, 0)
}

/// A setting by its name.
pub fn find_setting<'a>(v: &'a Vec<(String, Setting)>, name: &str) -> (r: Option<&'a Setting>)
    ensures
        match setting_of(setting_views(v@), name@) {
            Some(s) => r matches Some(x) && x@ == s,
            None => r is None,
        },
{
    let ghost all = setting_views(v@);
    let mut i: usize = 0;
    while i < v.len()
        invariant
            i <= v@.len(),
            all == setting_views(v@),
            setting_of(all, name@) == setting_from(all, name@, i as int),
        decreases v@.len() - i,
    {
        assert(all[i as int] == (v@[i as int].0@, v@[i as int].1@));
        if same(&v[i].0, name) {
            return Some(&v[i].1);
        }
        i += 1;
    }
    None
}

/// A value of a table by its name.
pub fn find_leaf<'a>(v: &'a Vec<(String, Leaf)>, name: &str) -> (r: Option<&'a Leaf>)
    ensures
        match leaf_of(leaf_views(v@), name@) {
            Some(s) => r matches Some(x) && x@ == s,
            None => r is None,
        },
{
    let ghost all = leaf_views(v@);
    let mut i: usize = 0;
    while i < v.len()
        invariant
            i <= v@.len(),
            all == leaf_views(v@),
            leaf_of(all, name@) == leaf_from(all, name@, i as int),
        decreases v@.len() - i,
    {
        assert(all[i as int] == (v@[i as int].0@, v@[i as int].1@));
        if same(&v[i].0, name) {
            return Some(&v[i].1);
        }
        i += 1;
    }
    None
}

proof fn lemma_setting(s: Seq<(Seq<char>, SettingView)>, name: Seq<char>, i: int, k: int)
    requires
        0 <= i <= k < s.len(),
        s[k].0 == name,
        forall|j: int| i <= j < k ==> (#[trigger] s[j]).0 != name,
    ensures
        setting_from(s, name, i) == Some(s[k].1),
    decreases k - i,
{
    if i < k {
        assert(s[i].0 != name);
        lemma_setting(s, name, i + 1, k);
    }
}

/// The first setting of a name is the one that counts.
pub proof fn the_first_of_a_name_counts(s: Seq<(Seq<char>, SettingView)>, name: Seq<char>, k: int)
    requires
        0 <= k < s.len(),
        s[k].0 == name,
        forall|j: int| 0 <= j < k ==> (#[trigger] s[j]).0 != name,
    ensures
        setting_of(s, name) == Some(s[k].1),
{
    lemma_setting(s, name, 0, k);
}

} // verus!
