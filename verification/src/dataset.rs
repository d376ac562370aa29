//! Datasets and their samples.
//!
//! A dataset is the summary that fitting needs: how many records there are,
//! how many of them are positive, and the range and type of every attribute.
//! A sample is one record: small attribute values and a label.

use vstd::prelude::*;
use crate::tree::Split;

verus! {

/// How many records there are, how many of them are positive, and what
/// their attributes look like.
pub trait Dataset {
    spec fn spec_num_records(&self) -> u32;

    spec fn spec_num_plus(&self) -> u32;

    spec fn spec_num_attributes(&self) -> u8;

    spec fn spec_attribute_range(&self, index: u8) -> (u8, u8);

    spec fn spec_attribute_type(&self, index: u8) -> AttributeType;

    fn num_records(&self) -> (n: u32)
        ensures
            n == self.spec_num_records(),
    ;

    fn num_plus(&self) -> (n: u32)
        ensures
            n == self.spec_num_plus(),
    ;

    fn num_attributes(&self) -> (n: u8)
        ensures
            n == self.spec_num_attributes(),
    ;

    /// Lowest and highest value of an attribute.
    fn attribute_range(&self, index: u8) -> (range: (u8, u8))
        requires
            index < self.spec_num_attributes(),
        ensures
            range == self.spec_attribute_range(index),
            range.0 <= range.1,
    ;

    fn attribute_type(&self, index: u8) -> (kind: AttributeType)
        requires
            index < self.spec_num_attributes(),
        ensures
            kind == self.spec_attribute_type(index),
    ;
}

#[derive(Eq, PartialEq, Clone, Copy, Debug)]
pub enum AttributeType {
    Numerical,
    Categorical,
}

/// One labelled record.
pub trait Sample: Copy {
    /// Whether the sample has an attribute of this index.
    spec fn has_attribute(&self, attribute_index: u8) -> bool;

    spec fn spec_attribute_value(&self, attribute_index: u8) -> u8;

    spec fn spec_true_label(&self) -> bool;

    fn is_left_of(&self, split: &Split) -> (left: bool)
        requires
            self.has_attribute(split.spec_attribute_index()),
        ensures
            left == split.sends_left(self.spec_attribute_value(split.spec_attribute_index())),
    {
        let attribute_index = split.attribute_index();
        let attribute_value = self.attribute_value(attribute_index);

        split.goes_left(attribute_value)
    }

    fn attribute_value(&self, attribute_index: u8) -> (value: u8)
        requires
            self.has_attribute(attribute_index),
        ensures
            value == self.spec_attribute_value(attribute_index),
    ;

    fn true_label(&self) -> (label: bool)
        ensures
            label == self.spec_true_label(),
    ;
}

/// Whether the split sends the sample to the left.
pub open spec fn goes_left<S: Sample>(sample: &S, split: &Split) -> bool {
    split.sends_left(sample.spec_attribute_value(split.spec_attribute_index()))
}

/// The number of positive samples.
pub open spec fn count_plus<S: Sample>(samples: Seq<S>) -> nat
    decreases samples.len(),
{
    if samples.len() == 0 {
        0
    } else {
        count_plus(samples.drop_last()) + if samples.last().spec_true_label() {
            1nat
        } else {
            0nat
        }
    }
}

/// Every sample has the attributes that the dataset describes.
pub open spec fn describes<D: Dataset, S: Sample>(dataset: &D, samples: Seq<S>) -> bool {
    forall|i: int, attribute_index: u8|
        0 <= i < samples.len() && attribute_index < dataset.spec_num_attributes() ==> #[trigger] samples[i].has_attribute(
            attribute_index,
        )
}

fn count_positive<S: Sample>(samples: &Vec<S>) -> (num_plus: usize)
    ensures
        num_plus == count_plus(samples@),
        num_plus <= samples.len(),
{
    let mut num_plus: usize = 0;
    let mut index: usize = 0;
    while index < samples.len()
        invariant
            index <= samples.len(),
            num_plus <= index,
            num_plus == count_plus(samples@.take(index as int)),
        decreases samples.len() - index,
    {
        assert(samples@.take(index + 1).drop_last() == samples@.take(index as int));
        if samples[index].true_label() {
            num_plus += 1;
        }
        index += 1;
    }
    assert(samples@.take(samples.len() as int) == samples@);
    num_plus
}

/// Summary of a dataset of passengers of the Titanic.
pub struct TitanicDataset {
    pub num_records: u32,
    pub num_plus: u32,
}

#[derive(Eq, PartialEq, Debug, Clone, Copy)]
pub struct TitanicSample {
    pub age: u8,
    pub fare: u8,
    pub siblings: u8,
    pub children: u8,
    pub gender: u8,
    pub pclass: u8,
    pub label: bool,
}

impl Sample for TitanicSample {
    open spec fn has_attribute(&self, attribute_index: u8) -> bool {
        attribute_index < 6
    }

    open spec fn spec_attribute_value(&self, attribute_index: u8) -> u8 {
        match attribute_index {
            0 => self.age,
            1 => self.fare,
            2 => self.siblings,
            3 => self.children,
            4 => self.gender,
            _ => self.pclass,
        }
    }

    open spec fn spec_true_label(&self) -> bool {
        self.label
    }

    fn attribute_value(&self, attribute_index: u8) -> (value: u8) {
        match attribute_index {
            0 => self.age,
            1 => self.fare,
            2 => self.siblings,
            3 => self.children,
            4 => self.gender,
            _ => self.pclass,
        }
    }

    fn true_label(&self) -> (label: bool) {
        self.label
    }
}

impl TitanicDataset {
    pub fn from_samples(samples: &Vec<TitanicSample>) -> (dataset: TitanicDataset)
        requires
            samples.len() <= u32::MAX,
        ensures
            dataset.num_records == samples.len(),
            dataset.num_plus == count_plus(samples@),
    {
        let num_plus = count_positive(samples);

        TitanicDataset { num_records: samples.len() as u32, num_plus: num_plus as u32 }
    }
}

impl Dataset for TitanicDataset {
    open spec fn spec_num_records(&self) -> u32 {
        self.num_records
    }

    open spec fn spec_num_plus(&self) -> u32 {
        self.num_plus
    }

    open spec fn spec_num_attributes(&self) -> u8 {
        6
    }

    open spec fn spec_attribute_range(&self, index: u8) -> (u8, u8) {
        match index {
            0 => (0, 19),
            1 => (0, 19),
            2 => (0, 8),
            3 => (0, 6),
            4 => (0, 1),
            _ => (0, 2),
        }
    }

    open spec fn spec_attribute_type(&self, index: u8) -> AttributeType {
        match index {
            0 => AttributeType::Numerical,
            1 => AttributeType::Numerical,
            2 => AttributeType::Numerical,
            3 => AttributeType::Numerical,
            4 => AttributeType::Categorical,
            _ => AttributeType::Categorical,
        }
    }

    fn num_records(&self) -> (n: u32) {
        self.num_records
    }

    fn num_plus(&self) -> (n: u32) {
        self.num_plus
    }

    fn num_attributes(&self) -> (n: u8) {
        6
    }

    fn attribute_range(&self, index: u8) -> (range: (u8, u8)) {
        match index {
            0 => (0, 19),
            1 => (0, 19),
            2 => (0, 8),
            3 => (0, 6),
            4 => (0, 1),
            _ => (0, 2),
        }
    }

    fn attribute_type(&self, index: u8) -> (kind: AttributeType) {
        match index {
            0 => AttributeType::Numerical,
            1 => AttributeType::Numerical,
            2 => AttributeType::Numerical,
            3 => AttributeType::Numerical,
            4 => AttributeType::Categorical,
            _ => AttributeType::Categorical,
        }
    }
}

/// Summary of a dataset of credit card clients and their defaults.
pub struct DefaultsDataset {
    pub num_records: u32,
    pub num_plus: u32,
}

#[derive(Eq, PartialEq, Debug, Clone, Copy)]
pub struct DefaultsSample {
    pub limit: u8,
    pub sex: u8,
    pub education: u8,
    pub marriage: u8,
    pub age: u8,
    pub pay0: u8,
    pub pay2: u8,
    pub pay3: u8,
    pub pay4: u8,
    pub pay5: u8,
    pub pay6: u8,
    pub bill_amt1: u8,
    pub bill_amt2: u8,
    pub bill_amt3: u8,
    pub bill_amt4: u8,
    pub bill_amt5: u8,
    pub bill_amt6: u8,
    pub pay_amt1: u8,
    pub pay_amt2: u8,
    pub pay_amt3: u8,
    pub pay_amt4: u8,
    pub pay_amt5: u8,
    pub pay_amt6: u8,
    pub label: bool,
}

impl Sample for DefaultsSample {
    open spec fn has_attribute(&self, attribute_index: u8) -> bool {
        attribute_index < 23
    }

    open spec fn spec_attribute_value(&self, attribute_index: u8) -> u8 {
        match attribute_index {
            0 => self.limit,
            1 => self.sex,
            2 => self.education,
            3 => self.marriage,
            4 => self.age,
            5 => self.pay0,
            6 => self.pay2,
            7 => self.pay3,
            8 => self.pay4,
            9 => self.pay5,
            10 => self.pay6,
            11 => self.bill_amt1,
            12 => self.bill_amt2,
            13 => self.bill_amt3,
            14 => self.bill_amt4,
            15 => self.bill_amt5,
            16 => self.bill_amt6,
            17 => self.pay_amt1,
            18 => self.pay_amt2,
            19 => self.pay_amt3,
            20 => self.pay_amt4,
            21 => self.pay_amt5,
            _ => self.pay_amt6,
        }
    }

    open spec fn spec_true_label(&self) -> bool {
        self.label
    }

    fn attribute_value(&self, attribute_index: u8) -> (value: u8) {
        match attribute_index {
            0 => self.limit,
            1 => self.sex,
            2 => self.education,
            3 => self.marriage,
            4 => self.age,
            5 => self.pay0,
            6 => self.pay2,
            7 => self.pay3,
            8 => self.pay4,
            9 => self.pay5,
            10 => self.pay6,
            11 => self.bill_amt1,
            12 => self.bill_amt2,
            13 => self.bill_amt3,
            14 => self.bill_amt4,
            15 => self.bill_amt5,
            16 => self.bill_amt6,
            17 => self.pay_amt1,
            18 => self.pay_amt2,
            19 => self.pay_amt3,
            20 => self.pay_amt4,
            21 => self.pay_amt5,
            _ => self.pay_amt6,
        }
    }

    fn true_label(&self) -> (label: bool) {
        self.label
    }
}

impl DefaultsDataset {
    pub fn from_samples(samples: &Vec<DefaultsSample>) -> (dataset: DefaultsDataset)
        requires
            samples.len() <= u32::MAX,
        ensures
            dataset.num_records == samples.len(),
            dataset.num_plus == count_plus(samples@),
    {
        let num_plus = count_positive(samples);

        DefaultsDataset { num_records: samples.len() as u32, num_plus: num_plus as u32 }
    }
}

impl Dataset for DefaultsDataset {
    open spec fn spec_num_records(&self) -> u32 {
        self.num_records
    }

    open spec fn spec_num_plus(&self) -> u32 {
        self.num_plus
    }

    open spec fn spec_num_attributes(&self) -> u8 {
        23
    }

    open spec fn spec_attribute_range(&self, index: u8) -> (u8, u8) {
        match index {
            0 => (0, 14),
            1 => (0, 1),
            2 => (0, 6),
            3 => (0, 3),
            4 => (0, 15),
            5 => (0, 10),
            6 => (0, 9),
            7 => (0, 10),
            8 => (0, 10),
            9 => (0, 10),
            10 => (0, 10),
            11 => (0, 15),
            12 => (0, 15),
            13 => (0, 15),
            14 => (0, 14),
            15 => (0, 14),
            16 => (0, 14),
            17 => (0, 13),
            18 => (0, 13),
            19 => (0, 12),
            20 => (0, 12),
            21 => (0, 12),
            _ => (0, 12),
        }
    }

    open spec fn spec_attribute_type(&self, index: u8) -> AttributeType {
        match index {
            0 => AttributeType::Numerical,
            1 => AttributeType::Categorical,
            2 => AttributeType::Categorical,
            3 => AttributeType::Categorical,
            4 => AttributeType::Numerical,
            5 => AttributeType::Numerical,
            6 => AttributeType::Numerical,
            7 => AttributeType::Numerical,
            8 => AttributeType::Numerical,
            9 => AttributeType::Numerical,
            10 => AttributeType::Numerical,
            11 => AttributeType::Numerical,
            12 => AttributeType::Numerical,
            13 => AttributeType::Numerical,
            14 => AttributeType::Numerical,
            15 => AttributeType::Numerical,
            16 => AttributeType::Numerical,
            17 => AttributeType::Numerical,
            18 => AttributeType::Numerical,
            19 => AttributeType::Numerical,
            20 => AttributeType::Numerical,
            21 => AttributeType::Numerical,
            _ => AttributeType::Numerical,
        }
    }

    fn num_records(&self) -> (n: u32) {
        self.num_records
    }

    fn num_plus(&self) -> (n: u32) {
        self.num_plus
    }

    fn num_attributes(&self) -> (n: u8) {
        23
    }

    fn attribute_range(&self, index: u8) -> (range: (u8, u8)) {
        match index {
            0 => (0, 14),
            1 => (0, 1),
            2 => (0, 6),
            3 => (0, 3),
            4 => (0, 15),
            5 => (0, 10),
            6 => (0, 9),
            7 => (0, 10),
            8 => (0, 10),
            9 => (0, 10),
            10 => (0, 10),
            11 => (0, 15),
            12 => (0, 15),
            13 => (0, 15),
            14 => (0, 14),
            15 => (0, 14),
            16 => (0, 14),
            17 => (0, 13),
            18 => (0, 13),
            19 => (0, 12),
            20 => (0, 12),
            21 => (0, 12),
            _ => (0, 12),
        }
    }

    fn attribute_type(&self, index: u8) -> (kind: AttributeType) {
        match index {
            0 => AttributeType::Numerical,
            1 => AttributeType::Categorical,
            2 => AttributeType::Categorical,
            3 => AttributeType::Categorical,
            4 => AttributeType::Numerical,
            5 => AttributeType::Numerical,
            6 => AttributeType::Numerical,
            7 => AttributeType::Numerical,
            8 => AttributeType::Numerical,
            9 => AttributeType::Numerical,
            10 => AttributeType::Numerical,
            11 => AttributeType::Numerical,
            12 => AttributeType::Numerical,
            13 => AttributeType::Numerical,
            14 => AttributeType::Numerical,
            15 => AttributeType::Numerical,
            16 => AttributeType::Numerical,
            17 => AttributeType::Numerical,
            18 => AttributeType::Numerical,
            19 => AttributeType::Numerical,
            20 => AttributeType::Numerical,
            21 => AttributeType::Numerical,
            _ => AttributeType::Numerical,
        }
    }
}

/// Summary of a dataset of census records and incomes.
pub struct AdultDataset {
    pub num_records: u32,
    pub num_plus: u32,
}

#[derive(Eq, PartialEq, Debug, Clone, Copy)]
pub struct AdultSample {
    pub age: u8,
    pub workclass: u8,
    pub fnlwgt: u8,
    pub education: u8,
    pub marital_status: u8,
    pub occupation: u8,
    pub relationship: u8,
    pub race: u8,
    pub sex: u8,
    pub capital_gain: u8,
    pub hours_per_week: u8,
    pub native_country: u8,
    pub label: bool,
}

impl Sample for AdultSample {
    open spec fn has_attribute(&self, attribute_index: u8) -> bool {
        attribute_index < 12
    }

    open spec fn spec_attribute_value(&self, attribute_index: u8) -> u8 {
        match attribute_index {
            0 => self.age,
            1 => self.workclass,
            2 => self.fnlwgt,
            3 => self.education,
            4 => self.marital_status,
            5 => self.occupation,
            6 => self.relationship,
            7 => self.race,
            8 => self.sex,
            9 => self.capital_gain,
            10 => self.hours_per_week,
            _ => self.native_country,
        }
    }

    open spec fn spec_true_label(&self) -> bool {
        self.label
    }

    fn attribute_value(&self, attribute_index: u8) -> (value: u8) {
        match attribute_index {
            0 => self.age,
            1 => self.workclass,
            2 => self.fnlwgt,
            3 => self.education,
            4 => self.marital_status,
            5 => self.occupation,
            6 => self.relationship,
            7 => self.race,
            8 => self.sex,
            9 => self.capital_gain,
            10 => self.hours_per_week,
            _ => self.native_country,
        }
    }

    fn true_label(&self) -> (label: bool) {
        self.label
    }
}

impl AdultDataset {
    pub fn from_samples(samples: &Vec<AdultSample>) -> (dataset: AdultDataset)
        requires
            samples.len() <= u32::MAX,
        ensures
            dataset.num_records == samples.len(),
            dataset.num_plus == count_plus(samples@),
    {
        let num_plus = count_positive(samples);

        AdultDataset { num_records: samples.len() as u32, num_plus: num_plus as u32 }
    }
}

impl Dataset for AdultDataset {
    open spec fn spec_num_records(&self) -> u32 {
        self.num_records
    }

    open spec fn spec_num_plus(&self) -> u32 {
        self.num_plus
    }

    open spec fn spec_num_attributes(&self) -> u8 {
        12
    }

    open spec fn spec_attribute_range(&self, index: u8) -> (u8, u8) {
        match index {
            0 => (0, 15),
            1 => (0, 6),
            2 => (0, 15),
            3 => (0, 15),
            4 => (0, 6),
            5 => (0, 13),
            6 => (0, 5),
            7 => (0, 4),
            8 => (0, 1),
            9 => (0, 1),
            10 => (0, 7),
            _ => (0, 40),
        }
    }

    open spec fn spec_attribute_type(&self, index: u8) -> AttributeType {
        match index {
            0 => AttributeType::Numerical,
            1 => AttributeType::Categorical,
            2 => AttributeType::Numerical,
            3 => AttributeType::Categorical,
            4 => AttributeType::Categorical,
            5 => AttributeType::Categorical,
            6 => AttributeType::Categorical,
            7 => AttributeType::Categorical,
            8 => AttributeType::Categorical,
            9 => AttributeType::Numerical,
            10 => AttributeType::Numerical,
            _ => AttributeType::Categorical,
        }
    }

    fn num_records(&self) -> (n: u32) {
        self.num_records
    }

    fn num_plus(&self) -> (n: u32) {
        self.num_plus
    }

    fn num_attributes(&self) -> (n: u8) {
        12
    }

    fn attribute_range(&self, index: u8) -> (range: (u8, u8)) {
        match index {
            0 => (0, 15),
            1 => (0, 6),
            2 => (0, 15),
            3 => (0, 15),
            4 => (0, 6),
            5 => (0, 13),
            6 => (0, 5),
            7 => (0, 4),
            8 => (0, 1),
            9 => (0, 1),
            10 => (0, 7),
            _ => (0, 40),
        }
    }

    fn attribute_type(&self, index: u8) -> (kind: AttributeType) {
        match index {
            0 => AttributeType::Numerical,
            1 => AttributeType::Categorical,
            2 => AttributeType::Numerical,
            3 => AttributeType::Categorical,
            4 => AttributeType::Categorical,
            5 => AttributeType::Categorical,
            6 => AttributeType::Categorical,
            7 => AttributeType::Categorical,
            8 => AttributeType::Categorical,
            9 => AttributeType::Numerical,
            10 => AttributeType::Numerical,
            _ => AttributeType::Categorical,
        }
    }
}

/// Summary of a dataset of sessions of online shoppers.
pub struct ShoppingDataset {
    pub num_records: u32,
    pub num_plus: u32,
}

#[derive(Eq, PartialEq, Debug, Clone, Copy)]
pub struct ShoppingSample {
    pub administrative: u8,
    pub administrative_duration: u8,
    pub informational: u8,
    pub informational_duration: u8,
    pub product_related: u8,
    pub product_related_duration: u8,
    pub bounce_rates: u8,
    pub exit_rates: u8,
    pub page_values: u8,
    pub special_day: u8,
    pub month: u8,
    pub operating_systems: u8,
    pub browser: u8,
    pub region: u8,
    pub traffic_type: u8,
    pub visitor_type: u8,
    pub weekend: u8,
    pub label: bool,
}

impl Sample for ShoppingSample {
    open spec fn has_attribute(&self, attribute_index: u8) -> bool {
        attribute_index < 17
    }

    open spec fn spec_attribute_value(&self, attribute_index: u8) -> u8 {
        match attribute_index {
            0 => self.administrative,
            1 => self.administrative_duration,
            2 => self.informational,
            3 => self.informational_duration,
            4 => self.product_related,
            5 => self.product_related_duration,
            6 => self.bounce_rates,
            7 => self.exit_rates,
            8 => self.page_values,
            9 => self.special_day,
            10 => self.month,
            11 => self.operating_systems,
            12 => self.browser,
            13 => self.region,
            14 => self.traffic_type,
            15 => self.visitor_type,
            _ => self.weekend,
        }
    }

    open spec fn spec_true_label(&self) -> bool {
        self.label
    }

    fn attribute_value(&self, attribute_index: u8) -> (value: u8) {
        match attribute_index {
            0 => self.administrative,
            1 => self.administrative_duration,
            2 => self.informational,
            3 => self.informational_duration,
            4 => self.product_related,
            5 => self.product_related_duration,
            6 => self.bounce_rates,
            7 => self.exit_rates,
            8 => self.page_values,
            9 => self.special_day,
            10 => self.month,
            11 => self.operating_systems,
            12 => self.browser,
            13 => self.region,
            14 => self.traffic_type,
            15 => self.visitor_type,
            _ => self.weekend,
        }
    }

    fn true_label(&self) -> (label: bool) {
        self.label
    }
}

impl ShoppingDataset {
    pub fn from_samples(samples: &Vec<ShoppingSample>) -> (dataset: ShoppingDataset)
        requires
            samples.len() <= u32::MAX,
        ensures
            dataset.num_records == samples.len(),
            dataset.num_plus == count_plus(samples@),
    {
        let num_plus = count_positive(samples);

        ShoppingDataset { num_records: samples.len() as u32, num_plus: num_plus as u32 }
    }
}

impl Dataset for ShoppingDataset {
    open spec fn spec_num_records(&self) -> u32 {
        self.num_records
    }

    open spec fn spec_num_plus(&self) -> u32 {
        self.num_plus
    }

    open spec fn spec_num_attributes(&self) -> u8 {
        17
    }

    open spec fn spec_attribute_range(&self, index: u8) -> (u8, u8) {
        match index {
            0 => (0, 7),
            1 => (0, 8),
            2 => (0, 3),
            3 => (0, 3),
            4 => (0, 15),
            5 => (0, 15),
            6 => (0, 8),
            7 => (0, 15),
            8 => (0, 3),
            9 => (0, 1),
            10 => (0, 9),
            11 => (0, 7),
            12 => (0, 12),
            13 => (0, 8),
            14 => (0, 19),
            15 => (0, 2),
            _ => (0, 1),
        }
    }

    open spec fn spec_attribute_type(&self, index: u8) -> AttributeType {
        match index {
            0 => AttributeType::Numerical,
            1 => AttributeType::Numerical,
            2 => AttributeType::Numerical,
            3 => AttributeType::Numerical,
            4 => AttributeType::Numerical,
            5 => AttributeType::Numerical,
            6 => AttributeType::Numerical,
            7 => AttributeType::Numerical,
            8 => AttributeType::Numerical,
            9 => AttributeType::Numerical,
            10 => AttributeType::Categorical,
            11 => AttributeType::Categorical,
            12 => AttributeType::Categorical,
            13 => AttributeType::Categorical,
            14 => AttributeType::Categorical,
            15 => AttributeType::Categorical,
            _ => AttributeType::Categorical,
        }
    }

    fn num_records(&self) -> (n: u32) {
        self.num_records
    }

    fn num_plus(&self) -> (n: u32) {
        self.num_plus
    }

    fn num_attributes(&self) -> (n: u8) {
        17
    }

    fn attribute_range(&self, index: u8) -> (range: (u8, u8)) {
        match index {
            0 => (0, 7),
            1 => (0, 8),
            2 => (0, 3),
            3 => (0, 3),
            4 => (0, 15),
            5 => (0, 15),
            6 => (0, 8),
            7 => (0, 15),
            8 => (0, 3),
            9 => (0, 1),
            10 => (0, 9),
            11 => (0, 7),
            12 => (0, 12),
            13 => (0, 8),
            14 => (0, 19),
            15 => (0, 2),
            _ => (0, 1),
        }
    }

    fn attribute_type(&self, index: u8) -> (kind: AttributeType) {
        match index {
            0 => AttributeType::Numerical,
            1 => AttributeType::Numerical,
            2 => AttributeType::Numerical,
            3 => AttributeType::Numerical,
            4 => AttributeType::Numerical,
            5 => AttributeType::Numerical,
            6 => AttributeType::Numerical,
            7 => AttributeType::Numerical,
            8 => AttributeType::Numerical,
            9 => AttributeType::Numerical,
            10 => AttributeType::Categorical,
            11 => AttributeType::Categorical,
            12 => AttributeType::Categorical,
            13 => AttributeType::Categorical,
            14 => AttributeType::Categorical,
            15 => AttributeType::Categorical,
            _ => AttributeType::Categorical,
        }
    }
}

/// Summary of a dataset of patients examined for cardiovascular disease.
pub struct CardioDataset {
    pub num_records: u32,
    pub num_plus: u32,
}

#[derive(Eq, PartialEq, Debug, Clone, Copy)]
pub struct CardioSample {
    pub age: u8,
    pub gender: u8,
    pub height: u8,
    pub weight: u8,
    pub ap_hi: u8,
    pub ap_lo: u8,
    pub cholesterol: u8,
    pub glucose: u8,
    pub smoke: u8,
    pub alcohol: u8,
    pub active: u8,
    pub label: bool,
}

impl Sample for CardioSample {
    open spec fn has_attribute(&self, attribute_index: u8) -> bool {
        attribute_index < 11
    }

    open spec fn spec_attribute_value(&self, attribute_index: u8) -> u8 {
        match attribute_index {
            0 => self.age,
            1 => self.gender,
            2 => self.height,
            3 => self.weight,
            4 => self.ap_hi,
            5 => self.ap_lo,
            6 => self.cholesterol,
            7 => self.glucose,
            8 => self.smoke,
            9 => self.alcohol,
            _ => self.active,
        }
    }

    open spec fn spec_true_label(&self) -> bool {
        self.label
    }

    fn attribute_value(&self, attribute_index: u8) -> (value: u8) {
        match attribute_index {
            0 => self.age,
            1 => self.gender,
            2 => self.height,
            3 => self.weight,
            4 => self.ap_hi,
            5 => self.ap_lo,
            6 => self.cholesterol,
            7 => self.glucose,
            8 => self.smoke,
            9 => self.alcohol,
            _ => self.active,
        }
    }

    fn true_label(&self) -> (label: bool) {
        self.label
    }
}

impl CardioDataset {
    pub fn from_samples(samples: &Vec<CardioSample>) -> (dataset: CardioDataset)
        requires
            samples.len() <= u32::MAX,
        ensures
            dataset.num_records == samples.len(),
            dataset.num_plus == count_plus(samples@),
    {
        let num_plus = count_positive(samples);

        CardioDataset { num_records: samples.len() as u32, num_plus: num_plus as u32 }
    }
}

impl Dataset for CardioDataset {
    open spec fn spec_num_records(&self) -> u32 {
        self.num_records
    }

    open spec fn spec_num_plus(&self) -> u32 {
        self.num_plus
    }

    open spec fn spec_num_attributes(&self) -> u8 {
        11
    }

    open spec fn spec_attribute_range(&self, index: u8) -> (u8, u8) {
        match index {
            0 => (0, 15),
            1 => (0, 1),
            2 => (0, 14),
            3 => (0, 15),
            4 => (0, 6),
            5 => (0, 4),
            6 => (0, 2),
            7 => (0, 2),
            8 => (0, 1),
            9 => (0, 1),
            _ => (0, 1),
        }
    }

    open spec fn spec_attribute_type(&self, index: u8) -> AttributeType {
        match index {
            0 => AttributeType::Numerical,
            1 => AttributeType::Categorical,
            2 => AttributeType::Numerical,
            3 => AttributeType::Numerical,
            4 => AttributeType::Numerical,
            5 => AttributeType::Numerical,
            6 => AttributeType::Categorical,
            7 => AttributeType::Categorical,
            8 => AttributeType::Categorical,
            9 => AttributeType::Categorical,
            _ => AttributeType::Categorical,
        }
    }

    fn num_records(&self) -> (n: u32) {
        self.num_records
    }

    fn num_plus(&self) -> (n: u32) {
        self.num_plus
    }

    fn num_attributes(&self) -> (n: u8) {
        11
    }

    fn attribute_range(&self, index: u8) -> (range: (u8, u8)) {
        match index {
            0 => (0, 15),
            1 => (0, 1),
            2 => (0, 14),
            3 => (0, 15),
            4 => (0, 6),
            5 => (0, 4),
            6 => (0, 2),
            7 => (0, 2),
            8 => (0, 1),
            9 => (0, 1),
            _ => (0, 1),
        }
    }

    fn attribute_type(&self, index: u8) -> (kind: AttributeType) {
        match index {
            0 => AttributeType::Numerical,
            1 => AttributeType::Categorical,
            2 => AttributeType::Numerical,
            3 => AttributeType::Numerical,
            4 => AttributeType::Numerical,
            5 => AttributeType::Numerical,
            6 => AttributeType::Categorical,
            7 => AttributeType::Categorical,
            8 => AttributeType::Categorical,
            9 => AttributeType::Categorical,
            _ => AttributeType::Categorical,
        }
    }
}

/// Summary of a dataset of defendants scored for recidivism.
pub struct PropublicaDataset {
    pub num_records: u32,
    pub num_plus: u32,
}

#[derive(Eq, PartialEq, Debug, Clone, Copy)]
pub struct PropublicaSample {
    pub age: u8,
    pub decile_score: u8,
    pub priors_count: u8,
    pub days_b_screening_arrest: u8,
    pub is_recid: u8,
    pub c_charge_degree: u8,
    pub sex: u8,
    pub age_cat: u8,
    pub score_text: u8,
    pub race: u8,
    pub label: bool,
}

impl Sample for PropublicaSample {
    open spec fn has_attribute(&self, attribute_index: u8) -> bool {
        attribute_index < 10
    }

    open spec fn spec_attribute_value(&self, attribute_index: u8) -> u8 {
        match attribute_index {
            0 => self.age,
            1 => self.decile_score,
            2 => self.priors_count,
            3 => self.days_b_screening_arrest,
            4 => self.is_recid,
            5 => self.c_charge_degree,
            6 => self.sex,
            7 => self.age_cat,
            8 => self.score_text,
            _ => self.race,
        }
    }

    open spec fn spec_true_label(&self) -> bool {
        self.label
    }

    fn attribute_value(&self, attribute_index: u8) -> (value: u8) {
        match attribute_index {
            0 => self.age,
            1 => self.decile_score,
            2 => self.priors_count,
            3 => self.days_b_screening_arrest,
            4 => self.is_recid,
            5 => self.c_charge_degree,
            6 => self.sex,
            7 => self.age_cat,
            8 => self.score_text,
            _ => self.race,
        }
    }

    fn true_label(&self) -> (label: bool) {
        self.label
    }
}

impl PropublicaDataset {
    pub fn from_samples(samples: &Vec<PropublicaSample>) -> (dataset: PropublicaDataset)
        requires
            samples.len() <= u32::MAX,
        ensures
            dataset.num_records == samples.len(),
            dataset.num_plus == count_plus(samples@),
    {
        let num_plus = count_positive(samples);

        PropublicaDataset { num_records: samples.len() as u32, num_plus: num_plus as u32 }
    }
}

impl Dataset for PropublicaDataset {
    open spec fn spec_num_records(&self) -> u32 {
        self.num_records
    }

    open spec fn spec_num_plus(&self) -> u32 {
        self.num_plus
    }

    open spec fn spec_num_attributes(&self) -> u8 {
        10
    }

    open spec fn spec_attribute_range(&self, index: u8) -> (u8, u8) {
        match index {
            0 => (0, 15),
            1 => (0, 8),
            2 => (0, 7),
            3 => (0, 4),
            4 => (0, 1),
            5 => (0, 1),
            6 => (0, 1),
            7 => (0, 2),
            8 => (0, 2),
            _ => (0, 5),
        }
    }

    open spec fn spec_attribute_type(&self, index: u8) -> AttributeType {
        match index {
            0 => AttributeType::Numerical,
            1 => AttributeType::Numerical,
            2 => AttributeType::Numerical,
            3 => AttributeType::Numerical,
            4 => AttributeType::Categorical,
            5 => AttributeType::Categorical,
            6 => AttributeType::Categorical,
            7 => AttributeType::Categorical,
            8 => AttributeType::Categorical,
            _ => AttributeType::Categorical,
        }
    }

    fn num_records(&self) -> (n: u32) {
        self.num_records
    }

    fn num_plus(&self) -> (n: u32) {
        self.num_plus
    }

    fn num_attributes(&self) -> (n: u8) {
        10
    }

    fn attribute_range(&self, index: u8) -> (range: (u8, u8)) {
        match index {
            0 => (0, 15),
            1 => (0, 8),
            2 => (0, 7),
            3 => (0, 4),
            4 => (0, 1),
            5 => (0, 1),
            6 => (0, 1),
            7 => (0, 2),
            8 => (0, 2),
            _ => (0, 5),
        }
    }

    fn attribute_type(&self, index: u8) -> (kind: AttributeType) {
        match index {
            0 => AttributeType::Numerical,
            1 => AttributeType::Numerical,
            2 => AttributeType::Numerical,
            3 => AttributeType::Numerical,
            4 => AttributeType::Categorical,
            5 => AttributeType::Categorical,
            6 => AttributeType::Categorical,
            7 => AttributeType::Categorical,
            8 => AttributeType::Categorical,
            _ => AttributeType::Categorical,
        }
    }
}

/// Summary of a dataset of borrowers and their financial distress.
pub struct GiveMeSomeCreditDataset {
    pub num_records: u32,
    pub num_plus: u32,
}

#[derive(Eq, PartialEq, Debug, Clone, Copy)]
pub struct GiveMeSomeCreditSample {
    pub revolving_util: u8,
    pub age: u8,
    pub past_due: u8,
    pub debt_ratio: u8,
    pub income: u8,
    pub lines: u8,
    pub real_estate: u8,
    pub dependents: u8,
    pub label: bool,
}

impl Sample for GiveMeSomeCreditSample {
    open spec fn has_attribute(&self, attribute_index: u8) -> bool {
        attribute_index < 8
    }

    open spec fn spec_attribute_value(&self, attribute_index: u8) -> u8 {
        match attribute_index {
            0 => self.revolving_util,
            1 => self.age,
            2 => self.past_due,
            3 => self.debt_ratio,
            4 => self.income,
            5 => self.lines,
            6 => self.real_estate,
            _ => self.dependents,
        }
    }

    open spec fn spec_true_label(&self) -> bool {
        self.label
    }

    fn attribute_value(&self, attribute_index: u8) -> (value: u8) {
        match attribute_index {
            0 => self.revolving_util,
            1 => self.age,
            2 => self.past_due,
            3 => self.debt_ratio,
            4 => self.income,
            5 => self.lines,
            6 => self.real_estate,
            _ => self.dependents,
        }
    }

    fn true_label(&self) -> (label: bool) {
        self.label
    }
}

impl GiveMeSomeCreditDataset {
    pub fn from_samples(samples: &Vec<GiveMeSomeCreditSample>) -> (dataset: GiveMeSomeCreditDataset)
        requires
            samples.len() <= u32::MAX,
        ensures
            dataset.num_records == samples.len(),
            dataset.num_plus == count_plus(samples@),
    {
        let num_plus = count_positive(samples);

        GiveMeSomeCreditDataset { num_records: samples.len() as u32, num_plus: num_plus as u32 }
    }
}

impl Dataset for GiveMeSomeCreditDataset {
    open spec fn spec_num_records(&self) -> u32 {
        self.num_records
    }

    open spec fn spec_num_plus(&self) -> u32 {
        self.num_plus
    }

    open spec fn spec_num_attributes(&self) -> u8 {
        8
    }

    open spec fn spec_attribute_range(&self, index: u8) -> (u8, u8) {
        match index {
            0 => (0, 14),
            1 => (0, 1),
            2 => (0, 15),
            3 => (0, 15),
            4 => (0, 15),
            5 => (0, 13),
            6 => (0, 3),
            _ => (0, 3),
        }
    }

    open spec fn spec_attribute_type(&self, index: u8) -> AttributeType {
        match index {
            0 => AttributeType::Numerical,
            1 => AttributeType::Numerical,
            2 => AttributeType::Numerical,
            3 => AttributeType::Numerical,
            4 => AttributeType::Numerical,
            5 => AttributeType::Numerical,
            6 => AttributeType::Numerical,
            _ => AttributeType::Numerical,
        }
    }

    fn num_records(&self) -> (n: u32) {
        self.num_records
    }

    fn num_plus(&self) -> (n: u32) {
        self.num_plus
    }

    fn num_attributes(&self) -> (n: u8) {
        8
    }

    fn attribute_range(&self, index: u8) -> (range: (u8, u8)) {
        match index {
            0 => (0, 14),
            1 => (0, 1),
            2 => (0, 15),
            3 => (0, 15),
            4 => (0, 15),
            5 => (0, 13),
            6 => (0, 3),
            _ => (0, 3),
        }
    }

    fn attribute_type(&self, index: u8) -> (kind: AttributeType) {
        match index {
            0 => AttributeType::Numerical,
            1 => AttributeType::Numerical,
            2 => AttributeType::Numerical,
            3 => AttributeType::Numerical,
            4 => AttributeType::Numerical,
            5 => AttributeType::Numerical,
            6 => AttributeType::Numerical,
            _ => AttributeType::Numerical,
        }
    }
}

} // verus!
