use script_lexer::lexer::tokenize;

#[test]
fn parse() {
    const PROGRAM: &str = r##"
        /*
            Strange and useless inefficient javascript parody.
        */

        // with both type of comments

        function inc(ref value, amount) {
            value = value + amount;
        }

        let first = 0.5;

        first = 100 - (first + 4.5) * 10;

        let counter = 0;
        while (first > 10) {
            inc(counter, 1);
            inc(first, -10);

            if (first < 30) {
                break;
            }
        }

        let bool_type_test = false;
        bool_type_test = first == 20;

        function factorial(num) {
            let rval = 1;
            let t = 2;
            while (t <= num) {
                rval = rval * t;
                t = t + 1;
            }

            return rval;
        }

        for (let value = 0; value < 10; inc(value, 1)) {
            std.println(factorial(value));
        }

        let ref counter_reference_test = counter;

        let uninitialized;

        if (uninitialized == null) {
            counter_reference_test = "It also\n\t\t support strings. " + counter_reference_test;
        }

        std.println("Enter 'exit' or something else:");

        while (true) {
            std.print("> ");
            let input = std.readln();
            if (input == "exit") {
                break;
            }
            std.println("");
        }
        "##;

    let chars: Vec<char> = PROGRAM.chars().collect();
    for (i, token) in tokenize(&chars).into_iter().enumerate() {
        println!("{:03}: {:?}", i, token);
    }
}
