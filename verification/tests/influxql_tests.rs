//! The InfluxQL fragment: measurement names, LIMIT/OFFSET clauses, the `ON`
//! expression, and `SHOW MEASUREMENTS`.

use compactor_core::influxql::{
    limit_clause, measurement_name_expression, offset_clause, on_expression, show_measurements,
    stmt_string, Identifier, MeasurementExpression, MeasurementNameExpression, OnExpression,
    ShowMeasurementsStatement,
};

#[test]
fn test_measurement_name_expression() {
    let database = Identifier::Unquoted("telegraf".into());
    let retention_policy = Identifier::Unquoted("autogen".into());
    let name = Identifier::Unquoted("diskio".into());

    let (_, got) = measurement_name_expression("diskio").unwrap();
    assert_eq!(
        got,
        MeasurementNameExpression {
            database: None,
            retention_policy: None,
            name: name.clone(),
        }
    );

    let (_, got) = measurement_name_expression("telegraf.autogen.diskio").unwrap();
    assert_eq!(
        got,
        MeasurementNameExpression {
            database: Some(database.clone()),
            retention_policy: Some(retention_policy.clone()),
            name: name.clone(),
        }
    );

    let (_, got) = measurement_name_expression("telegraf..diskio").unwrap();
    assert_eq!(
        got,
        MeasurementNameExpression {
            database: Some(database.clone()),
            retention_policy: None,
            name: name.clone(),
        }
    );
}

#[test]
fn test_limit_clause() {
    let (_, got) = limit_clause("LIMIT 587").unwrap();
    assert_eq!(got, 587);

    // case insensitive
    let (_, got) = limit_clause("limit 587").unwrap();
    assert_eq!(got, 587);

    // extra spaces between tokens
    let (_, got) = limit_clause("LIMIT     123").unwrap();
    assert_eq!(got, 123);

    // not digits
    assert!(limit_clause("LIMIT sdf").is_none());

    // overflow
    assert!(limit_clause("LIMIT 34593745733489743985734857394").is_none());
}

#[test]
fn test_offset_clause() {
    let (_, got) = offset_clause("OFFSET 587").unwrap();
    assert_eq!(got, 587);

    // case insensitive
    let (_, got) = offset_clause("offset 587").unwrap();
    assert_eq!(got, 587);

    // extra spaces between tokens
    let (_, got) = offset_clause("OFFSET     123").unwrap();
    assert_eq!(got, 123);

    // not digits
    assert!(offset_clause("OFFSET sdf").is_none());

    // overflow
    assert!(offset_clause("OFFSET 34593745733489743985734857394").is_none());
}

#[test]
fn test_show_measurements() {
    let (_, got) = show_measurements("SHOW measurements;").unwrap();
    assert_eq!(
        got,
        ShowMeasurementsStatement {
            on_expression: None,
            ..Default::default()
        },
    );

    let (_, got) = show_measurements("SHOW measurements ON foo;").unwrap();
    assert_eq!(
        got,
        ShowMeasurementsStatement {
            on_expression: Some(OnExpression::Database(Identifier::Unquoted("foo".into()))),
            ..Default::default()
        },
    );

    let (_, got) =
        show_measurements("SHOW  MEASUREMENTS  ON  foo  WITH  MEASUREMENT  =  bar;").unwrap();
    assert_eq!(
        got,
        ShowMeasurementsStatement {
            on_expression: Some(OnExpression::Database(Identifier::Unquoted("foo".into()))),
            measurement_expression: Some(MeasurementExpression::Equals(
                MeasurementNameExpression {
                    database: None,
                    retention_policy: None,
                    name: Identifier::Unquoted("bar".into()),
                }
            )),
        },
    );
    assert_eq!(
        stmt_string(&got),
        "SHOW MEASUREMENTS ON foo WITH MEASUREMENT = bar"
    );
}

#[test]
fn test_display() {
    let got = stmt_string(&ShowMeasurementsStatement {
        on_expression: None,
        ..Default::default()
    });
    assert_eq!(got, "SHOW MEASUREMENTS");

    let got = stmt_string(&ShowMeasurementsStatement {
        on_expression: Some(OnExpression::Database(Identifier::Unquoted("foo".into()))),
        ..Default::default()
    });
    assert_eq!(got, "SHOW MEASUREMENTS ON foo");

    let got = stmt_string(&ShowMeasurementsStatement {
        on_expression: Some(OnExpression::DatabaseRetentionPolicy(
            Identifier::Unquoted("foo".into()),
            Identifier::Unquoted("bar".into()),
        )),
        ..Default::default()
    });
    assert_eq!(got, "SHOW MEASUREMENTS ON foo.bar");

    let got = stmt_string(&ShowMeasurementsStatement {
        on_expression: Some(OnExpression::AllDatabases),
        ..Default::default()
    });
    assert_eq!(got, "SHOW MEASUREMENTS ON *");

    let got = stmt_string(&ShowMeasurementsStatement {
        on_expression: Some(OnExpression::AllDatabasesAndRetentionPolicies),
        ..Default::default()
    });
    assert_eq!(got, "SHOW MEASUREMENTS ON *.*");
}

#[test]
fn test_on_expression() {
    let (_, got) = on_expression("ON cpu", 0).unwrap();
    assert!(matches!(got, OnExpression::Database(Identifier::Unquoted(db)) if db == "cpu"));

    let (_, got) = on_expression("ON cpu.autogen", 0).unwrap();
    assert!(
        matches!(got, OnExpression::DatabaseRetentionPolicy(Identifier::Unquoted(db), Identifier::Unquoted(rp)) if db == "cpu" && rp == "autogen")
    );

    let (_, got) = on_expression("ON *", 0).unwrap();
    assert!(matches!(got, OnExpression::AllDatabases));

    let (_, got) = on_expression("ON *.*", 0).unwrap();
    assert!(matches!(
        got,
        OnExpression::AllDatabasesAndRetentionPolicies
    ));
}
