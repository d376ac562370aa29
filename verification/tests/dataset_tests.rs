use hedgecut::dataset::{
    AdultDataset, AdultSample, AttributeType, CardioDataset, CardioSample, Dataset, DefaultsDataset, DefaultsSample,
    GiveMeSomeCreditDataset, GiveMeSomeCreditSample, PropublicaDataset, PropublicaSample, Sample, ShoppingDataset,
    ShoppingSample, TitanicDataset, TitanicSample,
};
use hedgecut::tree::Split;

fn passenger(age: u8, gender: u8, label: bool) -> TitanicSample {
    TitanicSample { age, fare: 3, siblings: 1, children: 0, gender, pclass: 2, label }
}

#[test]
fn titanic_summary_counts_records_and_positives() {
    let samples = vec![passenger(3, 0, true), passenger(7, 1, false), passenger(12, 1, true)];
    let dataset = TitanicDataset::from_samples(&samples);
    assert_eq!(dataset.num_records(), 3);
    assert_eq!(dataset.num_plus(), 2);
    assert_eq!(dataset.num_records, 3);
    assert_eq!(dataset.num_plus, 2);
    assert_eq!(dataset.num_attributes(), 6);

    let empty = TitanicDataset::from_samples(&Vec::new());
    assert_eq!(empty.num_records(), 0);
    assert_eq!(empty.num_plus(), 0);
}

#[test]
fn titanic_attributes() {
    let dataset = TitanicDataset { num_records: 0, num_plus: 0 };
    assert_eq!(dataset.attribute_range(0), (0, 19));
    assert_eq!(dataset.attribute_range(1), (0, 19));
    assert_eq!(dataset.attribute_range(2), (0, 8));
    assert_eq!(dataset.attribute_range(3), (0, 6));
    assert_eq!(dataset.attribute_range(4), (0, 1));
    assert_eq!(dataset.attribute_range(5), (0, 2));
    assert_eq!(dataset.attribute_type(0), AttributeType::Numerical);
    assert_eq!(dataset.attribute_type(3), AttributeType::Numerical);
    assert_eq!(dataset.attribute_type(4), AttributeType::Categorical);
    assert_eq!(dataset.attribute_type(5), AttributeType::Categorical);
}

#[test]
fn titanic_sample_values() {
    let sample = TitanicSample { age: 1, fare: 2, siblings: 3, children: 4, gender: 5, pclass: 6, label: true };
    for attribute_index in 0..6u8 {
        assert_eq!(sample.attribute_value(attribute_index), attribute_index + 1);
    }
    assert!(sample.true_label());
    assert!(!passenger(1, 1, false).true_label());
}

#[test]
fn a_numerical_split_sends_lower_values_left() {
    let split = Split::new_numerical(0, 5);
    assert_eq!(split.attribute_index(), 0);
    assert!(passenger(4, 0, true).is_left_of(&split));
    assert!(!passenger(5, 0, true).is_left_of(&split));
    assert!(!passenger(6, 0, true).is_left_of(&split));
    assert!(split.goes_left(0));
    assert!(!split.goes_left(255));
    assert!(!Split::new_numerical(0, 0).goes_left(0));
}

#[test]
fn a_categorical_split_sends_the_values_of_its_subset_left() {
    let split = Split::new_categorical(4, 0b10);
    assert_eq!(split.attribute_index(), 4);
    assert!(passenger(4, 1, true).is_left_of(&split));
    assert!(!passenger(4, 0, true).is_left_of(&split));
    let wide = Split::new_categorical(4, 1 << 63);
    assert!(wide.goes_left(63));
    assert!(!wide.goes_left(62));
    assert!(!wide.goes_left(64));
    assert!(!Split::new_categorical(4, u64::MAX).goes_left(64));
    assert!(!Split::new_categorical(4, u64::MAX).goes_left(255));
    assert!(Split::new_categorical(4, u64::MAX).goes_left(0));
}

#[test]
fn splits_are_what_they_were_made_of() {
    assert_eq!(Split::new_numerical(3, 9), Split::Numerical { attribute_index: 3, cut_off: 9 });
    assert_eq!(Split::new_categorical(2, 5), Split::Categorical { attribute_index: 2, subset: 5 });
    assert_ne!(Split::new_numerical(3, 9), Split::new_numerical(3, 8));
}

#[test]
fn defaults_dataset() {
    let sample = DefaultsSample {
        limit: 0,
        sex: 1,
        education: 2,
        marriage: 3,
        age: 4,
        pay0: 5,
        pay2: 6,
        pay3: 7,
        pay4: 8,
        pay5: 9,
        pay6: 10,
        bill_amt1: 11,
        bill_amt2: 12,
        bill_amt3: 13,
        bill_amt4: 14,
        bill_amt5: 15,
        bill_amt6: 16,
        pay_amt1: 17,
        pay_amt2: 18,
        pay_amt3: 19,
        pay_amt4: 20,
        pay_amt5: 21,
        pay_amt6: 22,
        label: false,
    };
    for attribute_index in 0..23u8 {
        assert_eq!(sample.attribute_value(attribute_index), attribute_index);
    }
    let dataset = DefaultsDataset::from_samples(&vec![sample, sample]);
    assert_eq!((dataset.num_records(), dataset.num_plus(), dataset.num_attributes()), (2, 0, 23));
    assert_eq!(dataset.attribute_range(0), (0, 14));
    assert_eq!(dataset.attribute_range(6), (0, 9));
    assert_eq!(dataset.attribute_range(22), (0, 12));
    assert_eq!(dataset.attribute_type(0), AttributeType::Numerical);
    assert_eq!(dataset.attribute_type(1), AttributeType::Categorical);
    assert_eq!(dataset.attribute_type(3), AttributeType::Categorical);
    assert_eq!(dataset.attribute_type(4), AttributeType::Numerical);
}

#[test]
fn adult_dataset() {
    let sample = AdultSample {
        age: 0,
        workclass: 1,
        fnlwgt: 2,
        education: 3,
        marital_status: 4,
        occupation: 5,
        relationship: 6,
        race: 7,
        sex: 8,
        capital_gain: 9,
        hours_per_week: 10,
        native_country: 11,
        label: true,
    };
    for attribute_index in 0..12u8 {
        assert_eq!(sample.attribute_value(attribute_index), attribute_index);
    }
    let dataset = AdultDataset::from_samples(&vec![sample]);
    assert_eq!((dataset.num_records(), dataset.num_plus(), dataset.num_attributes()), (1, 1, 12));
    assert_eq!(dataset.attribute_range(11), (0, 40));
    assert_eq!(dataset.attribute_range(5), (0, 13));
    assert_eq!(dataset.attribute_type(11), AttributeType::Categorical);
    assert_eq!(dataset.attribute_type(9), AttributeType::Numerical);
    assert_eq!(dataset.attribute_type(2), AttributeType::Numerical);
}

#[test]
fn shopping_dataset() {
    let sample = ShoppingSample {
        administrative: 0,
        administrative_duration: 1,
        informational: 2,
        informational_duration: 3,
        product_related: 4,
        product_related_duration: 5,
        bounce_rates: 6,
        exit_rates: 7,
        page_values: 8,
        special_day: 9,
        month: 10,
        operating_systems: 11,
        browser: 12,
        region: 13,
        traffic_type: 14,
        visitor_type: 15,
        weekend: 16,
        label: true,
    };
    for attribute_index in 0..17u8 {
        assert_eq!(sample.attribute_value(attribute_index), attribute_index);
    }
    let dataset = ShoppingDataset::from_samples(&vec![sample, sample, sample]);
    assert_eq!((dataset.num_records(), dataset.num_plus(), dataset.num_attributes()), (3, 3, 17));
    assert_eq!(dataset.attribute_range(14), (0, 19));
    assert_eq!(dataset.attribute_type(9), AttributeType::Numerical);
    assert_eq!(dataset.attribute_type(10), AttributeType::Categorical);
}

#[test]
fn cardio_dataset() {
    let sample = CardioSample {
        age: 0,
        gender: 1,
        height: 2,
        weight: 3,
        ap_hi: 4,
        ap_lo: 5,
        cholesterol: 6,
        glucose: 7,
        smoke: 8,
        alcohol: 9,
        active: 10,
        label: false,
    };
    for attribute_index in 0..11u8 {
        assert_eq!(sample.attribute_value(attribute_index), attribute_index);
    }
    let dataset = CardioDataset::from_samples(&vec![sample]);
    assert_eq!((dataset.num_records(), dataset.num_plus(), dataset.num_attributes()), (1, 0, 11));
    assert_eq!(dataset.attribute_range(2), (0, 14));
    assert_eq!(dataset.attribute_type(1), AttributeType::Categorical);
    assert_eq!(dataset.attribute_type(5), AttributeType::Numerical);
}

#[test]
fn propublica_dataset() {
    let sample = PropublicaSample {
        age: 0,
        decile_score: 1,
        priors_count: 2,
        days_b_screening_arrest: 3,
        is_recid: 4,
        c_charge_degree: 5,
        sex: 6,
        age_cat: 7,
        score_text: 8,
        race: 9,
        label: true,
    };
    for attribute_index in 0..10u8 {
        assert_eq!(sample.attribute_value(attribute_index), attribute_index);
    }
    let dataset = PropublicaDataset::from_samples(&vec![sample]);
    assert_eq!((dataset.num_records(), dataset.num_plus(), dataset.num_attributes()), (1, 1, 10));
    assert_eq!(dataset.attribute_range(9), (0, 5));
    assert_eq!(dataset.attribute_type(3), AttributeType::Numerical);
    assert_eq!(dataset.attribute_type(4), AttributeType::Categorical);
}

#[test]
fn give_me_some_credit_dataset() {
    let sample = GiveMeSomeCreditSample {
        revolving_util: 0,
        age: 1,
        past_due: 2,
        debt_ratio: 3,
        income: 4,
        lines: 5,
        real_estate: 6,
        dependents: 7,
        label: true,
    };
    for attribute_index in 0..8u8 {
        assert_eq!(sample.attribute_value(attribute_index), attribute_index);
    }
    let other = GiveMeSomeCreditSample { label: false, ..sample };
    let dataset = GiveMeSomeCreditDataset::from_samples(&vec![sample, other, sample]);
    assert_eq!((dataset.num_records(), dataset.num_plus(), dataset.num_attributes()), (3, 2, 8));
    assert_eq!(dataset.attribute_range(0), (0, 14));
    assert_eq!(dataset.attribute_range(1), (0, 1));
    assert_eq!(dataset.attribute_range(7), (0, 3));
    for attribute_index in 0..8u8 {
        assert_eq!(dataset.attribute_type(attribute_index), AttributeType::Numerical);
    }
}
